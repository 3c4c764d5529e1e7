//! Fixed-window rate limiter per client address.
//!
//! Bounded state: windows idle for [`RATE_TABLE_IDLE_TTL_US`] are dropped on
//! every check, and once the table is full the oldest window is recycled
//! before an unseen address enters. A flood of spoofed sources cannot grow
//! the table without limit.
use vstd::prelude::*;

use crate::api_error::ApiError;

verus! {

/// Session creations allowed per client per window.
pub const SESSIONS_PER_WINDOW: u32 = 30;

pub const RATE_WINDOW_US: u64 = 60_000_000;

pub const RATE_TABLE_IDLE_TTL_US: u64 = 600_000_000;

pub const RATE_TABLE_MAX_ENTRIES: usize = 4096;

/// Ceiling on live recognition sessions.
pub const MAX_CONCURRENT_SESSIONS: usize = 32;

/// A client address: the bits of an IPv4 or of an IPv6 address.
#[derive(Debug, Clone, Copy, PartialEq, Eq, Structural)]
pub struct ClientAddr {
    pub v6: bool,
    pub bits: u128,
}

/// The current window of one client.
#[derive(Debug, Clone, Copy, PartialEq, Eq, Structural)]
pub struct Window {
    pub client: ClientAddr,
    pub start_us: u64,
    pub hits: u32,
}

/// The window started at most the idle time ago.
pub open spec fn is_live(w: Window, now_us: int) -> bool {
    w.start_us <= now_us && now_us - w.start_us < 600_000_000
}

/// The live windows of a table.
pub open spec fn live_windows(s: Seq<Window>, now_us: int) -> Seq<Window> {
    s.filter(|w: Window| is_live(w, now_us))
}

/// Position of the client's window, or the length of the table.
pub open spec fn position(s: Seq<Window>, client: ClientAddr) -> int
    decreases s.len(),
{
    if s.len() == 0 {
        0
    } else if s[0].client == client {
        0
    } else {
        1 + position(s.drop_first(), client)
    }
}

/// Position of the window that started first.
pub open spec fn oldest(s: Seq<Window>) -> int
    decreases s.len(),
{
    if s.len() <= 1 {
        0
    } else {
        let k = oldest(s.drop_last());
        if s.last().start_us < s[k].start_us {
            s.len() - 1
        } else {
            k
        }
    }
}

/// The table after dropping idle windows and, where it is full and the client
/// unseen, recycling the oldest one.
pub open spec fn with_room(s: Seq<Window>, client: ClientAddr, now_us: int) -> Seq<Window> {
    let kept = live_windows(s, now_us);
    if kept.len() >= 4096 && position(kept, client) == kept.len() {
        kept.remove(oldest(kept))
    } else {
        kept
    }
}

/// One more hit, at most the largest count.
pub open spec fn one_more(hits: u32) -> u32 {
    if hits < u32::MAX {
        (hits + 1) as u32
    } else {
        hits
    }
}

/// The table after a check, and whether the client may pass.
pub open spec fn after_check(
    s: Seq<Window>,
    client: ClientAddr,
    now_us: int,
    limit: u32,
    window_us: int,
) -> (Seq<Window>, bool) {
    let room = with_room(s, client, now_us);
    let i = position(room, client);
    if i == room.len() {
        (room.push(Window { client, start_us: now_us as u64, hits: 1 }), true)
    } else if now_us - room[i].start_us >= window_us {
        (room.update(i, Window { client, start_us: now_us as u64, hits: 1 }), true)
    } else {
        let hits = one_more(room[i].hits);
        (room.update(i, Window { hits, ..room[i] }), hits <= limit)
    }
}

/// No client has two windows.
pub open spec fn distinct_clients(s: Seq<Window>) -> bool {
    forall|i: int, j: int| 0 <= i < j < s.len() ==> #[trigger] s[i].client != #[trigger] s[j].client
}

pub proof fn lemma_position(s: Seq<Window>, client: ClientAddr)
    ensures
        0 <= position(s, client) <= s.len(),
        position(s, client) < s.len() ==> s[position(s, client)].client == client,
        forall|i: int| 0 <= i < position(s, client) ==> (#[trigger] s[i]).client != client,
    decreases s.len(),
{
    if s.len() > 0 && s[0].client != client {
        let t = s.drop_first();
        lemma_position(t, client);
        assert forall|i: int| 0 <= i < position(s, client) implies (#[trigger] s[i]).client
            != client by {
            if i > 0 {
                assert(t[i - 1] == s[i]);
            }
        }
    }
}

proof fn lemma_oldest(s: Seq<Window>)
    requires
        s.len() > 0,
    ensures
        0 <= oldest(s) < s.len(),
        forall|i: int| 0 <= i < s.len() ==> s[oldest(s)].start_us <= (#[trigger] s[i]).start_us,
    decreases s.len(),
{
    if s.len() > 1 {
        let t = s.drop_last();
        lemma_oldest(t);
        assert forall|i: int| 0 <= i < s.len() implies s[oldest(s)].start_us <= (
        #[trigger] s[i]).start_us by {
            if i < t.len() {
                assert(t[i] == s[i]);
            }
        }
    }
}

/// A filtered table keeps its clients distinct.
proof fn lemma_filter_distinct(s: Seq<Window>, p: spec_fn(Window) -> bool)
    requires
        distinct_clients(s),
    ensures
        distinct_clients(s.filter(p)),
        forall|w: Window| #[trigger] s.filter(p).contains(w) ==> s.contains(w) && p(w),
        s.filter(p).len() <= s.len(),
    decreases s.len(),
{
    reveal(Seq::filter);
    if s.len() > 0 {
        let t = s.drop_last();
        assert forall|i: int, j: int| 0 <= i < j < t.len() implies #[trigger] t[i].client
            != #[trigger] t[j].client by {
            assert(s[i].client != s[j].client);
        }
        lemma_filter_distinct(t, p);
        let f = t.filter(p);
        assert forall|w: Window| #[trigger] s.filter(p).contains(w) implies s.contains(w) && p(
            w,
        ) by {
            let k = s.filter(p).index_of(w);
            if k < f.len() {
                assert(f[k] == w);
                assert(f.contains(w));
                let m = t.index_of(w);
                assert(s[m] == w);
            } else {
                assert(s[s.len() - 1] == w);
            }
        }
        if p(s.last()) {
            assert forall|i: int, j: int| 0 <= i < j < s.filter(p).len() implies #[trigger] s.filter(
                p,
            )[i].client != #[trigger] s.filter(p)[j].client by {
                if j < f.len() {
                    assert(f[i].client != f[j].client);
                } else {
                    assert(f.contains(f[i]));
                    let m = t.index_of(f[i]);
                    assert(s[m].client != s[s.len() - 1].client);
                }
            }
        }
    }
}

/// Rate limiter: the current window of every client seen lately.
pub struct RateLimiter {
    windows: Vec<Window>,
}

impl View for RateLimiter {
    type V = Seq<Window>;

    closed spec fn view(&self) -> Seq<Window> {
        self.windows@
    }
}

impl RateLimiter {
    /// One window per client, and no more than the table may hold.
    pub open spec fn wf(&self) -> bool {
        distinct_clients(self@) && self@.len() <= RATE_TABLE_MAX_ENTRIES
    }

    /// Number of addresses in the table.
    pub fn table_len(&self) -> (n: usize)
        ensures
            n == self@.len(),
    {
        self.windows.len()
    }

    pub fn new() -> (limiter: Self)
        ensures
            limiter.wf(),
            limiter@.len() == 0,
    {
        RateLimiter { windows: Vec::new() }
    }

    /// Check one session creation against the server-wide budget.
    pub fn check(&mut self, client: ClientAddr, now_us: u64) -> (pass: bool)
        requires
            old(self).wf(),
        ensures
            final(self).wf(),
            (final(self)@, pass) == after_check(old(self)@, client, now_us as int, 30, 60_000_000),
    {
        self.check_with(client, now_us, SESSIONS_PER_WINDOW, RATE_WINDOW_US)
    }

    /// Check with a budget of `limit` per `window_us`.
    pub fn check_with(
        &mut self,
        client: ClientAddr,
        now_us: u64,
        limit: u32,
        window_us: u64,
    ) -> (pass: bool)
        requires
            old(self).wf(),
        ensures
            final(self).wf(),
            (final(self)@, pass) == after_check(
                old(self)@,
                client,
                now_us as int,
                limit,
                window_us as int,
            ),
    {
        let ghost p = |w: Window| is_live(w, now_us as int);
        proof {
            lemma_filter_distinct(self@, p);
        }
        self.windows = retain_live(&self.windows, now_us);
        if self.windows.len() >= RATE_TABLE_MAX_ENTRIES && find(&self.windows, client)
            == self.windows.len() {
            let k: usize = find_oldest(&self.windows);
            let ghost kept = self.windows@;
            self.windows.remove(k);
            proof {
                assert forall|i: int, j: int|
                    0 <= i < j < self.windows.len() implies #[trigger] self.windows[i].client
                    != #[trigger] self.windows[j].client by {
                    let a = if i < k { i } else { i + 1 };
                    let b = if j < k { j } else { j + 1 };
                    assert(kept[a].client != kept[b].client);
                }
            }
        }
        let ghost room = self.windows@;
        let i: usize = find(&self.windows, client);
        proof {
            lemma_position(room, client);
            if i < room.len() {
                assert(p(room[i as int])) by {
                    let kept = live_windows(old(self)@, now_us as int);
                    assert(kept.contains(room[i as int])) by {
                        if kept.len() >= 4096 && position(kept, client) == kept.len() {
                            lemma_oldest(kept);
                            let o = oldest(kept);
                            let a = if i < o { i as int } else { i + 1 };
                            assert(kept[a] == room[i as int]);
                        }
                    }
                }
            }
        }
        if i == self.windows.len() {
            self.windows.push(Window { client, start_us: now_us, hits: 1 });
            true
        } else {
            let w: Window = self.windows[i];
            if now_us - w.start_us >= window_us {
                self.windows.set(i, Window { client, start_us: now_us, hits: 1 });
                true
            } else {
                let hits: u32 = w.hits.saturating_add(1);
                self.windows.set(i, Window { client: w.client, start_us: w.start_us, hits });
                hits <= limit
            }
        }
    }
}

fn retain_live(windows: &Vec<Window>, now_us: u64) -> (kept: Vec<Window>)
    ensures
        kept@ == live_windows(windows@, now_us as int),
{
    let ghost p = |w: Window| is_live(w, now_us as int);
    let mut kept: Vec<Window> = Vec::new();
    let mut i: usize = 0;
    proof {
        reveal(Seq::filter);
        assert(windows@.take(0) =~= Seq::<Window>::empty());
    }
    while i < windows.len()
        invariant
            i <= windows.len(),
            p == (|w: Window| is_live(w, now_us as int)),
            kept@ == windows@.take(i as int).filter(p),
        decreases windows.len() - i,
    {
        proof {
            reveal(Seq::filter);
            assert(windows@.take(i + 1).drop_last() =~= windows@.take(i as int));
        }
        let w: Window = windows[i];
        if w.start_us <= now_us && now_us - w.start_us < RATE_TABLE_IDLE_TTL_US {
            kept.push(w);
        }
        i = i + 1;
    }
    assert(windows@.take(i as int) =~= windows@);
    kept
}

fn find(windows: &Vec<Window>, client: ClientAddr) -> (i: usize)
    ensures
        i == position(windows@, client),
        i <= windows.len(),
{
    let mut i: usize = 0;
    assert(windows@.skip(0) =~= windows@);
    while i < windows.len()
        invariant
            i <= windows.len(),
            position(windows@, client) == i + position(windows@.skip(i as int), client),
        decreases windows.len() - i,
    {
        if windows[i].client == client {
            return i;
        }
        assert(windows@.skip(i as int).drop_first() =~= windows@.skip(i + 1));
        i = i + 1;
    }
    i
}

fn find_oldest(windows: &Vec<Window>) -> (k: usize)
    requires
        windows.len() > 0,
    ensures
        k == oldest(windows@),
        k < windows.len(),
{
    let mut k: usize = 0;
    let mut i: usize = 1;
    while i < windows.len()
        invariant
            1 <= i <= windows.len(),
            k < i,
            k == oldest(windows@.take(i as int)),
        decreases windows.len() - i,
    {
        assert(windows@.take(i + 1).drop_last() =~= windows@.take(i as int));
        if windows[i].start_us < windows[k].start_us {
            k = i;
        }
        i = i + 1;
    }
    assert(windows@.take(i as int) =~= windows@);
    k
}

/// Why a session is not created, if it is not: the rate is checked first,
/// then the number of live sessions.
pub open spec fn admission_fault(pass: bool, active: int) -> Option<ApiError> {
    if !pass {
        Some(ApiError::RateLimited)
    } else if active >= 32 {
        Some(ApiError::SessionLimit)
    } else {
        None
    }
}

/// Decide a session creation for a client while `active` sessions are live.
pub fn admit_session(
    limiter: &mut RateLimiter,
    client: ClientAddr,
    now_us: u64,
    active: usize,
) -> (r: Result<(), ApiError>)
    requires
        old(limiter).wf(),
    ensures
        final(limiter).wf(),
        final(limiter)@ == after_check(old(limiter)@, client, now_us as int, 30, 60_000_000).0,
        match r {
            Ok(()) => admission_fault(
                after_check(old(limiter)@, client, now_us as int, 30, 60_000_000).1,
                active as int,
            ) is None,
            Err(e) => admission_fault(
                after_check(old(limiter)@, client, now_us as int, 30, 60_000_000).1,
                active as int,
            ) == Some(e),
        },
{
    if !limiter.check(client, now_us) {
        return Err(ApiError::RateLimited);
    }
    if active >= MAX_CONCURRENT_SESSIONS {
        return Err(ApiError::SessionLimit);
    }
    Ok(())
}

/// `n` checks of one client at the same moment, one after the other: the
/// table they leave.
pub open spec fn after_burst(
    s: Seq<Window>,
    client: ClientAddr,
    now_us: int,
    limit: u32,
    window_us: int,
    n: nat,
) -> Seq<Window>
    decreases n,
{
    if n == 0 {
        s
    } else {
        after_check(
            after_burst(s, client, now_us, limit, window_us, (n - 1) as nat),
            client,
            now_us,
            limit,
            window_us,
        ).0
    }
}

/// A client that the table does not know has a budget of `limit`: of a burst
/// of checks exactly the first `limit` pass.
pub proof fn law_burst_is_limited(
    s: Seq<Window>,
    client: ClientAddr,
    now_us: u64,
    limit: u32,
    window_us: int,
    n: nat,
)
    requires
        distinct_clients(s),
        s.len() <= RATE_TABLE_MAX_ENTRIES,
        position(live_windows(s, now_us as int), client) == live_windows(s, now_us as int).len(),
        window_us > 0,
        limit > 0,
        n < u32::MAX,
    ensures
        after_check(
            after_burst(s, client, now_us as int, limit, window_us, n),
            client,
            now_us as int,
            limit,
            window_us,
        ).1 == (n < limit),
{
    lemma_burst(s, client, now_us, limit, window_us, n);
    let t = after_burst(s, client, now_us as int, limit, window_us, n);
    if n > 0 {
        lemma_all_live(t, now_us as int);
    } else {
        lemma_unseen(s, client, now_us as int);
    }
}

/// Making room for an unseen client leaves it unseen, and every window live.
proof fn lemma_unseen(s: Seq<Window>, client: ClientAddr, now: int)
    requires
        distinct_clients(s),
        position(live_windows(s, now), client) == live_windows(s, now).len(),
    ensures
        position(with_room(s, client, now), client) == with_room(s, client, now).len(),
        forall|k: int|
            0 <= k < with_room(s, client, now).len() ==> is_live(
                #[trigger] with_room(s, client, now)[k],
                now,
            ),
{
    let p = |w: Window| is_live(w, now);
    lemma_filter_distinct(s, p);
    let kept = live_windows(s, now);
    lemma_position(kept, client);
    let room = with_room(s, client, now);
    if kept.len() >= 4096 {
        lemma_oldest(kept);
    }
    assert forall|k: int| 0 <= k < room.len() implies kept.contains(#[trigger] room[k]) by {
        if kept.len() >= 4096 {
            let o = oldest(kept);
            let a = if k < o { k } else { k + 1 };
            assert(kept[a] == room[k]);
        }
    }
    lemma_position(room, client);
    let i = position(room, client);
    if i < room.len() {
        assert(kept.contains(room[i]));
        let a = kept.index_of(room[i]);
        assert(kept[a].client == client);
    }
    assert forall|k: int| 0 <= k < room.len() implies is_live(#[trigger] room[k], now) by {
        assert(kept.contains(room[k]));
    }
}

proof fn lemma_all_live(s: Seq<Window>, now_us: int)
    requires
        forall|i: int| 0 <= i < s.len() ==> is_live(#[trigger] s[i], now_us),
    ensures
        live_windows(s, now_us) == s,
    decreases s.len(),
{
    reveal(Seq::filter);
    let p = |w: Window| is_live(w, now_us);
    if s.len() > 0 {
        let t = s.drop_last();
        assert forall|i: int| 0 <= i < t.len() implies is_live(#[trigger] t[i], now_us) by {
            assert(t[i] == s[i]);
        }
        lemma_all_live(t, now_us);
        assert(is_live(s[s.len() - 1], now_us));
        assert(s.filter(p) =~= t.push(s.last()));
    }
    assert(s.filter(p) =~= s);
}

/// The invariants of a burst.
proof fn lemma_burst(
    s: Seq<Window>,
    client: ClientAddr,
    now_us: u64,
    limit: u32,
    window_us: int,
    n: nat,
)
    requires
        distinct_clients(s),
        s.len() <= RATE_TABLE_MAX_ENTRIES,
        position(live_windows(s, now_us as int), client) == live_windows(s, now_us as int).len(),
        window_us > 0,
        n < u32::MAX,
    ensures
        n > 0 ==> {
            let t = after_burst(s, client, now_us as int, limit, window_us, n);
            let i = position(t, client);
            &&& i < t.len()
            &&& t[i] == (Window { client, start_us: now_us, hits: n as u32 })
            &&& forall|k: int| 0 <= k < t.len() ==> is_live(#[trigger] t[k], now_us as int)
        },
    decreases n,
{
    let now = now_us as int;
    if n > 0 {
        let m = (n - 1) as nat;
        let before = after_burst(s, client, now, limit, window_us, m);
        lemma_burst(s, client, now_us, limit, window_us, m);
        if m == 0 {
            lemma_unseen(s, client, now);
            let room = with_room(s, client, now);
            lemma_position(room, client);
            let t = room.push(Window { client, start_us: now_us, hits: 1 });
            lemma_position(t, client);
            let j = position(t, client);
            if j < room.len() {
                assert(t[j] == room[j]);
            }
            assert(t[room.len() as int].client == client);
            assert forall|k: int| 0 <= k < t.len() implies is_live(#[trigger] t[k], now) by {
                if k < room.len() {
                    assert(is_live(room[k], now));
                }
            }
        } else {
            lemma_all_live(before, now);
            lemma_position(before, client);
            let i = position(before, client);
            let t = before.update(i, Window { hits: n as u32, ..before[i] });
            assert(t == after_burst(s, client, now, limit, window_us, n));
            lemma_position(t, client);
            let j = position(t, client);
            assert(t[i].client == client);
            if j < i {
                assert(t[j] == before[j]);
            }
            assert forall|k: int| 0 <= k < t.len() implies is_live(#[trigger] t[k], now) by {
                assert(is_live(before[k], now));
            }
        }
    }
}

/// A new window opens once the old one has run out: the next check passes
/// and the count starts again.
pub proof fn law_window_rolls_over(
    s: Seq<Window>,
    client: ClientAddr,
    now_us: u64,
    limit: u32,
    window_us: int,
)
    requires
        forall|k: int| 0 <= k < s.len() ==> is_live(#[trigger] s[k], now_us as int),
        position(s, client) < s.len(),
        now_us - s[position(s, client)].start_us >= window_us,
    ensures
        after_check(s, client, now_us as int, limit, window_us).1,
        after_check(s, client, now_us as int, limit, window_us).0[position(s, client)] == (Window {
            client,
            start_us: now_us,
            hits: 1,
        }),
{
    lemma_all_live(s, now_us as int);
    lemma_position(s, client);
}

proof fn lemma_filter_keeps(s: Seq<Window>, p: spec_fn(Window) -> bool, w: Window)
    requires
        s.contains(w),
        p(w),
    ensures
        s.filter(p).contains(w),
    decreases s.len(),
{
    reveal(Seq::filter);
    let t = s.drop_last();
    let f = t.filter(p);
    if s.last() == w {
        assert(s.filter(p)[f.len() as int] == w);
    } else {
        let k = s.index_of(w);
        assert(t[k] == w);
        lemma_filter_keeps(t, p, w);
        let m = f.index_of(w);
        assert(s.filter(p)[m] == w);
    }
}

/// Budgets are not shared: a check leaves the window of every other client
/// as it is, unless it is idle, or recycled because the table is full.
pub proof fn law_clients_are_independent(
    s: Seq<Window>,
    client: ClientAddr,
    now_us: u64,
    limit: u32,
    window_us: int,
    other: Window,
)
    requires
        s.contains(other),
        other.client != client,
        is_live(other, now_us as int),
        live_windows(s, now_us as int).len() < RATE_TABLE_MAX_ENTRIES,
    ensures
        after_check(s, client, now_us as int, limit, window_us).0.contains(other),
{
    let kept = live_windows(s, now_us as int);
    lemma_filter_keeps(s, |w: Window| is_live(w, now_us as int), other);
    lemma_position(kept, client);
    let i = position(kept, client);
    let k = kept.index_of(other);
    let after = after_check(s, client, now_us as int, limit, window_us).0;
    assert(k != i);
    assert(after[k] == other);
}

/// The window of a client that is still open at `now_us`: started at most
/// ten minutes ago.
pub open spec fn holds_window(s: Seq<Window>, w: Window, now_us: int) -> bool {
    s.contains(w) && w.start_us <= now_us < w.start_us + 600_000_000
}

/// A check of a client whose window is younger than ten minutes follows that
/// window: once it has lasted the window's time the client passes and is
/// counted from one; before that, the hit is counted and the client passes
/// exactly while its count, this hit included, stays within the limit. A
/// client without such a window passes and is counted from one.
pub proof fn law_checks_follow_the_clients_window(
    s: Seq<Window>,
    client: ClientAddr,
    now_us: u64,
    limit: u32,
    window_us: int,
)
    requires
        distinct_clients(s),
        s.len() <= 4096,
    ensures
        forall|w: Window|
            #![trigger s.contains(w)]
            w.client == client && holds_window(s, w, now_us as int) ==> {
                let (table, pass) = after_check(s, client, now_us as int, limit, window_us);
                if w.start_us + window_us <= now_us {
                    pass && table.contains(Window { client, start_us: now_us, hits: 1 })
                } else if w.hits < u32::MAX {
                    &&& pass <==> w.hits + 1 <= limit
                    &&& table.contains(
                        Window { client, start_us: w.start_us, hits: (w.hits + 1) as u32 },
                    )
                } else {
                    (pass <==> limit == u32::MAX) && table.contains(w)
                }
            },
        (forall|w: Window| #[trigger] s.contains(w) && w.client == client ==> !holds_window(
            s,
            w,
            now_us as int,
        )) ==> {
            let (table, pass) = after_check(s, client, now_us as int, limit, window_us);
            pass && table.contains(Window { client, start_us: now_us, hits: 1 })
        },
{
    let now = now_us as int;
    let p = |w: Window| is_live(w, now);
    lemma_filter_distinct(s, p);
    let kept = live_windows(s, now);
    lemma_position(kept, client);
    let room = with_room(s, client, now);
    let (table, pass) = after_check(s, client, now, limit, window_us);
    assert forall|w: Window|
        #![trigger s.contains(w)]
        w.client == client && holds_window(s, w, now) implies {
        if w.start_us + window_us <= now_us {
            pass && table.contains(Window { client, start_us: now_us, hits: 1 })
        } else if w.hits < u32::MAX {
            &&& pass <==> w.hits + 1 <= limit
            &&& table.contains(Window { client, start_us: w.start_us, hits: (w.hits + 1) as u32 })
        } else {
            (pass <==> limit == u32::MAX) && table.contains(w)
        }
    } by {
        lemma_filter_keeps(s, p, w);
        let k = kept.index_of(w);
        let i = position(kept, client);
        assert(kept[k].client == client);
        assert(i == k) by {
            if i < k {
                assert(kept[i].client != kept[k].client);
            }
        }
        assert(room == kept);
        assert(table.len() == kept.len());
        assert(table.contains(table[i]));
    }
    if forall|w: Window| #[trigger] s.contains(w) && w.client == client ==> !holds_window(
        s,
        w,
        now,
    ) {
        let i = position(kept, client);
        if i < kept.len() {
            assert(kept.contains(kept[i]));
            assert(s.contains(kept[i]));
        }
        lemma_unseen(s, client, now);
        assert(table[room.len() as int] == (Window { client, start_us: now_us, hits: 1 }));
    }
}

/// A check touches no other client: what the table then holds of others it
/// held before, no older than ten minutes; and it still holds all of those,
/// unless the client is new and the table full, when one of them leaves and
/// none that stays is older. The table never outgrows its limit.
pub proof fn law_checks_leave_other_clients_alone(
    s: Seq<Window>,
    client: ClientAddr,
    now_us: u64,
    limit: u32,
    window_us: int,
)
    requires
        distinct_clients(s),
        s.len() <= 4096,
    ensures
        after_check(s, client, now_us as int, limit, window_us).0.len() <= 4096,
        forall|w: Window| #[trigger]
            after_check(s, client, now_us as int, limit, window_us).0.contains(w) && w.client
                != client ==> holds_window(s, w, now_us as int),
        forall|w: Window, v: Window|
            holds_window(s, w, now_us as int) && w.client != client && !#[trigger] after_check(
                s,
                client,
                now_us as int,
                limit,
                window_us,
            ).0.contains(w) ==> {
                &&& s.len() == 4096
                &&& !exists|k: int| 0 <= k < s.len() && (#[trigger] s[k]).client == client
                &&& #[trigger] after_check(s, client, now_us as int, limit, window_us).0.contains(v)
                    && v.client != client ==> w.start_us <= v.start_us
            },
{
    let now = now_us as int;
    let p = |w: Window| is_live(w, now);
    lemma_filter_distinct(s, p);
    let kept = live_windows(s, now);
    lemma_position(kept, client);
    let room = with_room(s, client, now);
    lemma_position(room, client);
    let table = after_check(s, client, now, limit, window_us).0;
    let full = kept.len() >= 4096 && position(kept, client) == kept.len();
    if full {
        lemma_oldest(kept);
        lemma_unseen(s, client, now);
    }
    let o = oldest(kept);
    assert forall|w: Window| #[trigger] table.contains(w) && w.client != client implies kept.contains(
        w,
    ) by {
        let k = table.index_of(w);
        let i = position(room, client);
        assert(k != i);
        assert(room[k] == w);
        let a = if full && k >= o { k + 1 } else { k };
        assert(kept[a] == w);
    }
    assert forall|w: Window, v: Window|
        holds_window(s, w, now) && w.client != client && !#[trigger] table.contains(w) implies {
        &&& s.len() == 4096
        &&& !exists|k: int| 0 <= k < s.len() && (#[trigger] s[k]).client == client
        &&& #[trigger] table.contains(v) && v.client != client ==> w.start_us <= v.start_us
    } by {
        lemma_filter_keeps(s, p, w);
        let k = kept.index_of(w);
        let i = position(room, client);
        if !full {
            assert(k != i);
            assert(table[k] == w);
        }
        if k != o {
            let a = if k > o { k - 1 } else { k };
            assert(room[a] == w);
            assert(table[a] == w);
        }
        lemma_whole_filter(s, p);
        assert(kept =~= s);
        if table.contains(v) && v.client != client {
            assert(kept.contains(v));
            let m = kept.index_of(v);
            assert(kept[o].start_us <= kept[m].start_us);
        }
    }
}

/// A test that drops nothing leaves everything.
proof fn lemma_whole_filter(s: Seq<Window>, p: spec_fn(Window) -> bool)
    ensures
        s.filter(p).len() <= s.len(),
        s.filter(p).len() == s.len() ==> s.filter(p) == s,
    decreases s.len(),
{
    reveal(Seq::filter);
    if s.len() > 0 {
        lemma_whole_filter(s.drop_last(), p);
        assert(s =~= s.drop_last().push(s.last()));
    }
}

/// A session is created exactly if the client's rate allows it and fewer
/// than thirty-two sessions are live; a client over its rate is told so,
/// however many sessions are live.
pub proof fn law_admission_needs_rate_and_room(pass: bool, active: int)
    ensures
        admission_fault(pass, active) is None <==> pass && active < 32,
        admission_fault(pass, active) == Some(ApiError::RateLimited) <==> !pass,
        admission_fault(pass, active) == Some(ApiError::SessionLimit) <==> pass && active >= 32,
        MAX_CONCURRENT_SESSIONS == 32,
        SESSIONS_PER_WINDOW == 30,
        RATE_WINDOW_US == 60_000_000,
{
}

} // verus!
