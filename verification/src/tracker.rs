use vstd::prelude::*;

use crate::table::{find_key, has_key, key_pos, keys_distinct, lemma_key_pos_unique, table_view};

verus! {

/// An RSSI reading of a device, taken at `time` ticks of a monotonic clock.
#[derive(Debug, Clone, Copy)]
pub struct RssiEvent {
    pub rssi: isize,
    pub time: u64,
}

/// The age of an event at `now`; a clock read before the event counts as no time.
pub open spec fn age(e: RssiEvent, now: u64) -> int {
    if now >= e.time {
        now - e.time
    } else {
        0
    }
}

/// An event is still considered while it is younger than `max_age`.
pub open spec fn fresh(e: RssiEvent, now: u64, max_age: u64) -> bool {
    age(e, now) < max_age
}

/// The fresh events, in their order.
pub open spec fn keep_fresh(es: Seq<RssiEvent>, now: u64, max_age: u64) -> Seq<RssiEvent>
    decreases es.len(),
{
    if es.len() == 0 {
        seq![]
    } else {
        let r = keep_fresh(es.drop_last(), now, max_age);
        if fresh(es.last(), now, max_age) {
            r.push(es.last())
        } else {
            r
        }
    }
}

/// A device identifier with its readings.
pub type Readings = (Seq<char>, Seq<RssiEvent>);

/// The readings of a device, empty for a device without any.
pub open spec fn readings_of(s: Seq<Readings>, k: Seq<char>) -> Seq<RssiEvent> {
    if has_key(s, k) {
        s[key_pos(s, k)].1
    } else {
        seq![]
    }
}

/// An event appended to the readings of its device.
pub open spec fn add_event(s: Seq<Readings>, k: Seq<char>, e: RssiEvent) -> Seq<Readings> {
    if has_key(s, k) {
        let p = key_pos(s, k);
        s.update(p, (k, s[p].1.push(e)))
    } else {
        s.push((k, seq![e]))
    }
}

/// Every device keeps its fresh events; a device left without any is dropped.
pub open spec fn prune(s: Seq<Readings>, now: u64, max_age: u64) -> Seq<Readings>
    decreases s.len(),
{
    if s.len() == 0 {
        seq![]
    } else {
        let r = prune(s.drop_last(), now, max_age);
        let es = keep_fresh(s.last().1, now, max_age);
        if es.len() > 0 {
            r.push((s.last().0, es))
        } else {
            r
        }
    }
}

pub open spec fn sum_rssi(es: Seq<RssiEvent>) -> int
    decreases es.len(),
{
    if es.len() == 0 {
        0
    } else {
        sum_rssi(es.drop_last()) + es.last().rssi
    }
}

/// Integer division that rounds toward zero, as Rust's `/` does.
pub open spec fn div_toward_zero(a: int, b: int) -> int {
    if a >= 0 {
        a / b
    } else {
        -((-a) / b)
    }
}

/// The mean RSSI of a device, rounded toward zero.
pub open spec fn mean_rssi(es: Seq<RssiEvent>) -> int {
    div_toward_zero(sum_rssi(es), es.len() as int)
}


/// Every event that survives is fresh, and nothing else is dropped.
pub proof fn lemma_keep_fresh(es: Seq<RssiEvent>, now: u64, max_age: u64)
    ensures
        forall|i: int|
            0 <= i < keep_fresh(es, now, max_age).len() ==> fresh(
                #[trigger] keep_fresh(es, now, max_age)[i],
                now,
                max_age,
            ),
        keep_fresh(es, now, max_age).len() <= es.len(),
        (forall|i: int| 0 <= i < es.len() ==> fresh(#[trigger] es[i], now, max_age)) ==> keep_fresh(
            es,
            now,
            max_age,
        ) == es,
    decreases es.len(),
{
    if es.len() > 0 {
        lemma_keep_fresh(es.drop_last(), now, max_age);
        let r = keep_fresh(es.drop_last(), now, max_age);
        if fresh(es.last(), now, max_age) {
            assert forall|i: int| 0 <= i < r.push(es.last()).len() implies fresh(
                #[trigger] r.push(es.last())[i],
                now,
                max_age,
            ) by {
                if i < r.len() {
                    assert(r.push(es.last())[i] == r[i]);
                }
            }
        }
        if forall|i: int| 0 <= i < es.len() ==> fresh(#[trigger] es[i], now, max_age) {
            assert forall|i: int| 0 <= i < es.drop_last().len() implies fresh(
                #[trigger] es.drop_last()[i],
                now,
                max_age,
            ) by {
                assert(es.drop_last()[i] == es[i]);
            }
            assert(fresh(es[es.len() - 1], now, max_age));
            assert(es.drop_last().push(es.last()) =~= es);
        }
    } else {
        assert(es =~= seq![]);
    }
}

proof fn lemma_prune_ids(s: Seq<Readings>, now: u64, max_age: u64)
    ensures
        forall|i: int|
            0 <= i < prune(s, now, max_age).len() ==> #[trigger] prune(s, now, max_age)[i].1.len() > 0,
        forall|i: int|
            0 <= i < prune(s, now, max_age).len() ==> has_key(s, #[trigger] prune(s, now, max_age)[i].0),
        keys_distinct(s) ==> keys_distinct(prune(s, now, max_age)),
        forall|i: int|
            0 <= i < prune(s, now, max_age).len() ==> exists|j: int|
                0 <= j < s.len() && s[j].0 == #[trigger] prune(s, now, max_age)[i].0 && prune(s, now, max_age)[i].1
                    == keep_fresh(s[j].1, now, max_age),
    decreases s.len(),
{
    if s.len() > 0 {
        let d = s.drop_last();
        lemma_prune_ids(d, now, max_age);
        let r = prune(d, now, max_age);
        let es = keep_fresh(s.last().1, now, max_age);
        let t = prune(s, now, max_age);
        assert forall|i: int| 0 <= i < r.len() implies has_key(s, #[trigger] r[i].0) by {
            let j = choose|j: int| 0 <= j < d.len() && d[j].0 == r[i].0;
            assert(s[j] == d[j]);
        }
        assert forall|i: int| 0 <= i < r.len() implies exists|j: int|
            0 <= j < s.len() && s[j].0 == #[trigger] r[i].0 && r[i].1 == keep_fresh(s[j].1, now, max_age) by {
            let j = choose|j: int|
                0 <= j < d.len() && d[j].0 == r[i].0 && r[i].1 == keep_fresh(d[j].1, now, max_age);
            assert(s[j] == d[j]);
        }
        if es.len() > 0 {
            assert(t == r.push((s.last().0, es)));
            assert(has_key(s, s.last().0)) by {
                assert(s[s.len() - 1].0 == s.last().0);
            }
            assert forall|i: int| 0 <= i < t.len() implies has_key(s, #[trigger] t[i].0) by {
                if i < r.len() {
                    assert(t[i] == r[i]);
                }
            }
            assert forall|i: int| 0 <= i < t.len() implies #[trigger] t[i].1.len() > 0 by {
                if i < r.len() {
                    assert(t[i] == r[i]);
                }
            }
            assert forall|i: int| 0 <= i < t.len() implies exists|j: int|
                0 <= j < s.len() && s[j].0 == #[trigger] t[i].0 && t[i].1 == keep_fresh(s[j].1, now, max_age) by {
                if i < r.len() {
                    assert(t[i] == r[i]);
                } else {
                    assert(s[s.len() - 1] == s.last());
                }
            }
            if keys_distinct(s) {
                assert(keys_distinct(d)) by {
                    assert forall|a: int, b: int| 0 <= a < b < d.len() implies d[a].0 != d[b].0 by {
                        assert(d[a] == s[a] && d[b] == s[b]);
                    }
                }
                assert forall|a: int, b: int| 0 <= a < b < t.len() implies t[a].0 != t[b].0 by {
                    if b < r.len() {
                        assert(t[a] == r[a] && t[b] == r[b]);
                    } else {
                        assert(t[a] == r[a]);
                        let j = choose|j: int| 0 <= j < d.len() && d[j].0 == r[a].0;
                        assert(s[j].0 != s[s.len() - 1].0);
                    }
                }
            }
        } else {
            assert(t == r);
            if keys_distinct(s) {
                assert forall|a: int, b: int| 0 <= a < b < d.len() implies d[a].0 != d[b].0 by {
                    assert(d[a] == s[a] && d[b] == s[b]);
                }
            }
        }
    }
}

/// After pruning, a device's readings are the fresh part of what it had.
pub proof fn lemma_prune_readings(s: Seq<Readings>, now: u64, max_age: u64, k: Seq<char>)
    requires
        keys_distinct(s),
    ensures
        readings_of(prune(s, now, max_age), k) == keep_fresh(readings_of(s, k), now, max_age),
{
    lemma_prune_ids(s, now, max_age);
    let t = prune(s, now, max_age);
    if has_key(s, k) {
        let j = key_pos(s, k);
        if has_key(t, k) {
            let i = key_pos(t, k);
            let j2 = choose|j2: int|
                0 <= j2 < s.len() && s[j2].0 == t[i].0 && t[i].1 == keep_fresh(s[j2].1, now, max_age);
            lemma_key_pos_unique(s, k, j2);
        } else {
            lemma_prune_keeps(s, now, max_age, j);
        }
    } else {
        if has_key(t, k) {
            let i = key_pos(t, k);
            assert(has_key(s, t[i].0));
        }
        assert(keep_fresh(Seq::<RssiEvent>::empty(), now, max_age) =~= Seq::<RssiEvent>::empty());
    }
}

/// A device whose fresh readings are not empty stays in the table.
proof fn lemma_prune_keeps(s: Seq<Readings>, now: u64, max_age: u64, j: int)
    requires
        0 <= j < s.len(),
    ensures
        keep_fresh(s[j].1, now, max_age).len() > 0 ==> has_key(prune(s, now, max_age), s[j].0),
        keep_fresh(s[j].1, now, max_age).len() == 0 ==> keep_fresh(s[j].1, now, max_age) =~= Seq::<RssiEvent>::empty(),
    decreases s.len(),
{
    let d = s.drop_last();
    let r = prune(d, now, max_age);
    if j < s.len() - 1 {
        assert(d[j] == s[j]);
        lemma_prune_keeps(d, now, max_age, j);
        if keep_fresh(s[j].1, now, max_age).len() > 0 {
            let i = choose|i: int| 0 <= i < r.len() && r[i].0 == s[j].0;
            let t = prune(s, now, max_age);
            assert(t[i] == r[i]);
        }
    } else {
        let t = prune(s, now, max_age);
        if keep_fresh(s[j].1, now, max_age).len() > 0 {
            assert(t[r.len() as int].0 == s[j].0);
        }
    }
}

proof fn lemma_add_event(s: Seq<Readings>, k: Seq<char>, e: RssiEvent)
    requires
        keys_distinct(s),
    ensures
        keys_distinct(add_event(s, k, e)),
        readings_of(add_event(s, k, e), k) == readings_of(s, k).push(e),
        forall|k2: Seq<char>| k2 != k ==> #[trigger] readings_of(add_event(s, k, e), k2) == readings_of(s, k2),
{
    let t = add_event(s, k, e);
    if has_key(s, k) {
        let p = key_pos(s, k);
        assert(forall|i: int| 0 <= i < t.len() ==> #[trigger] t[i].0 == s[i].0);
        lemma_key_pos_unique(t, k, p);
    } else {
        assert(forall|i: int| 0 <= i < s.len() ==> #[trigger] t[i] == s[i]);
        assert forall|i: int, j: int| 0 <= i < j < t.len() implies t[i].0 != t[j].0 by {
            if j == s.len() {
                assert(t[i].0 == s[i].0);
                assert(!(0 <= i < s.len() && s[i].0 == k));
            }
        }
        lemma_key_pos_unique(t, k, s.len() as int);
        assert(seq![e] =~= Seq::<RssiEvent>::empty().push(e));
    }
    assert forall|k2: Seq<char>| k2 != k implies #[trigger] readings_of(t, k2) == readings_of(s, k2) by {
        if has_key(s, k2) {
            let q = key_pos(s, k2);
            assert(t[q] == s[q]);
            lemma_key_pos_unique(t, k2, q);
        }
        if has_key(t, k2) {
            let q = key_pos(t, k2);
            assert(q < s.len());
            assert(t[q] == s[q]);
            lemma_key_pos_unique(s, k2, q);
        }
    }
}



/// What a reading does to the window: each device's readings become the fresh
/// part of what it had, with the new reading appended to its own device; the
/// new reading stays exactly when it is fresh; every reading kept is fresh.
pub proof fn lemma_push_rssi(s: Seq<Readings>, id: Seq<char>, e: RssiEvent, now: u64, max_age: u64)
    requires
        keys_distinct(s),
    ensures
        forall|k: Seq<char>|
            #[trigger] readings_of(prune(add_event(s, id, e), now, max_age), k) == keep_fresh(
                if k == id {
                    readings_of(s, k).push(e)
                } else {
                    readings_of(s, k)
                },
                now,
                max_age,
            ),
        fresh(e, now, max_age) ==> readings_of(prune(add_event(s, id, e), now, max_age), id) == keep_fresh(
            readings_of(s, id),
            now,
            max_age,
        ).push(e),
        !fresh(e, now, max_age) ==> readings_of(prune(add_event(s, id, e), now, max_age), id) == keep_fresh(
            readings_of(s, id),
            now,
            max_age,
        ),
        forall|i: int, j: int|
            0 <= i < prune(add_event(s, id, e), now, max_age).len() && 0 <= j < prune(
                add_event(s, id, e),
                now,
                max_age,
            )[i].1.len() ==> fresh(#[trigger] prune(add_event(s, id, e), now, max_age)[i].1[j], now, max_age),
{
    lemma_add_event(s, id, e);
    let a = add_event(s, id, e);
    let t = prune(a, now, max_age);
    assert forall|k: Seq<char>| #[trigger] readings_of(t, k) == keep_fresh(
        if k == id {
            readings_of(s, k).push(e)
        } else {
            readings_of(s, k)
        },
        now,
        max_age,
    ) by {
        lemma_prune_readings(a, now, max_age, k);
    }
    let x = readings_of(s, id).push(e);
    assert(x.drop_last() =~= readings_of(s, id));
    assert(readings_of(t, id) == keep_fresh(x, now, max_age));
    lemma_prune_ids(a, now, max_age);
    assert forall|i: int, j: int| 0 <= i < t.len() && 0 <= j < t[i].1.len() implies fresh(
        #[trigger] t[i].1[j],
        now,
        max_age,
    ) by {
        let j2 = choose|j2: int|
            0 <= j2 < a.len() && a[j2].0 == t[i].0 && t[i].1 == keep_fresh(a[j2].1, now, max_age);
        lemma_keep_fresh(a[j2].1, now, max_age);
    }
}

fn is_fresh(e: &RssiEvent, now: u64, max_age: u64) -> (r: bool)
    ensures
        r == fresh(*e, now, max_age),
{
    let elapsed = if now >= e.time {
        now - e.time
    } else {
        0
    };
    elapsed < max_age
}

fn keep_fresh_vec(es: &Vec<RssiEvent>, now: u64, max_age: u64) -> (r: Vec<RssiEvent>)
    ensures
        r@ == keep_fresh(es@, now, max_age),
{
    let mut r: Vec<RssiEvent> = Vec::new();
    let mut i: usize = 0;
    assert(es@.take(0) =~= Seq::<RssiEvent>::empty());
    while i < es.len()
        invariant
            i <= es@.len(),
            r@ == keep_fresh(es@.take(i as int), now, max_age),
        decreases es@.len() - i,
    {
        assert(es@.take(i + 1).drop_last() =~= es@.take(i as int));
        assert(es@.take(i + 1).last() == es@[i as int]);
        if is_fresh(&es[i], now, max_age) {
            r.push(es[i]);
        }
        i = i + 1;
    }
    assert(es@.take(i as int) =~= es@);
    r
}

fn mean_of(es: &Vec<RssiEvent>) -> (r: isize)
    requires
        es@.len() > 0,
    ensures
        r == mean_rssi(es@),
{
    let n = es.len();
    let mut sum: i128 = 0;
    let mut i: usize = 0;
    assert(es@.take(0) =~= Seq::<RssiEvent>::empty());
    while i < n
        invariant
            n == es@.len(),
            i <= n,
            sum == sum_rssi(es@.take(i as int)),
            i * (isize::MIN as int) <= sum <= i * (isize::MAX as int),
        decreases n - i,
    {
        assert(es@.take(i + 1).drop_last() =~= es@.take(i as int));
        assert(es@.take(i + 1).last() == es@[i as int]);
        assert(i * (isize::MAX as int) + isize::MAX == (i + 1) * (isize::MAX as int)) by (nonlinear_arith);
        assert(i * (isize::MIN as int) + isize::MIN == (i + 1) * (isize::MIN as int)) by (nonlinear_arith);
        assert((i + 1) * (isize::MAX as int) <= 0x1_0000_0000_0000_0000 * 0x7fff_ffff_ffff_ffff) by (nonlinear_arith)
            requires i + 1 <= 0x1_0000_0000_0000_0000int;
        assert((i + 1) * (isize::MIN as int) >= 0x1_0000_0000_0000_0000 * (-0x8000_0000_0000_0000)) by (nonlinear_arith)
            requires i + 1 <= 0x1_0000_0000_0000_0000int;
        sum = sum + es[i].rssi as i128;
        i = i + 1;
    }
    assert(es@.take(n as int) =~= es@);
    assert(sum == sum_rssi(es@));
    let d = n as u128;
    if sum >= 0 {
        let q = (sum as u128) / d;
        assert(q <= isize::MAX) by (nonlinear_arith)
            requires
                q == (sum as int) / (d as int),
                0 <= sum <= d * (isize::MAX as int),
                d > 0,
        ;
        assert(q == (sum as int) / (n as int));
        let r = q as isize;
        assert(r == q);
        assert(r == div_toward_zero(sum_rssi(es@), es@.len() as int));
        r
    } else {
        let q = ((-sum) as u128) / d;
        assert(q <= -(isize::MIN as int)) by (nonlinear_arith)
            requires
                q == (-sum) / (d as int),
                0 < -sum <= d * (-(isize::MIN as int)),
                d > 0,
        ;
        assert(q == (-(sum as int)) / (n as int));
        let neg = -(q as i128);
        assert(neg == -((-(sum as int)) / (n as int)));
        let r = neg as isize;
        assert(r == neg);
        assert(r == div_toward_zero(sum_rssi(es@), es@.len() as int));
        r
    }
}

/// The recent RSSI readings of each device.
pub struct RssiWindow {
    events: Vec<(String, Vec<RssiEvent>)>,
}

impl RssiWindow {
    pub closed spec fn readings(self) -> Seq<Readings> {
        table_view(self.events@)
    }

    /// Each device occurs once and has at least one reading.
    pub open spec fn wf(self) -> bool {
        &&& keys_distinct(self.readings())
        &&& forall|i: int| 0 <= i < self.readings().len() ==> #[trigger] self.readings()[i].1.len() > 0
    }

    #[verifier::type_invariant]
    spec fn inv(self) -> bool {
        self.wf()
    }

    /// A window without readings.
    pub fn new() -> (r: Self)
        ensures
            r.wf(),
            r.readings() == Seq::<Readings>::empty(),
    {
        let r = RssiWindow { events: Vec::new() };
        assert(r.readings() =~= Seq::<Readings>::empty());
        r
    }

    /// The readings of each device, in the order the devices were first seen.
    pub fn readings_table(&self) -> (r: &Vec<(String, Vec<RssiEvent>)>)
        ensures
            table_view(r@) == self.readings(),
    {
        &self.events
    }

    /// Adds a reading of `device_id` and then forgets, at `now`, every reading
    /// that is not younger than `max_age`, and every device left without one.
    pub fn push_rssi(&mut self, device_id: String, event: RssiEvent, now: u64, max_age: u64)
        ensures
            final(self).wf(),
            final(self).readings() == prune(add_event(old(self).readings(), device_id@, event), now, max_age),
    {
        proof {
            use_type_invariant(&*self);
        }
        let ghost s0 = self.readings();
        let mut events: Vec<(String, Vec<RssiEvent>)> = Vec::new();
        std::mem::swap(&mut events, &mut self.events);
        assert(table_view(events@) == s0);
        match find_key(&events, &device_id) {
            Some(p) => {
                events[p].1.push(event);
                assert(table_view(events@) =~= add_event(s0, device_id@, event));
            },
            None => {
                let mut v: Vec<RssiEvent> = Vec::new();
                v.push(event);
                events.push((device_id, v));
                assert(table_view(events@) =~= add_event(s0, device_id@, event));
            },
        }
        let ghost s1 = table_view(events@);
        proof {
            lemma_add_event(s0, device_id@, event);
        }
        let mut out: Vec<(String, Vec<RssiEvent>)> = Vec::new();
        let mut k: usize = 0;
        assert(s1.take(0) =~= Seq::<Readings>::empty());
        while k < events.len()
            invariant
                k <= events@.len(),
                table_view(events@) == s1,
                table_view(out@) == prune(s1.take(k as int), now, max_age),
            decreases events@.len() - k,
        {
            assert(s1.take(k + 1).drop_last() =~= s1.take(k as int));
            assert(s1.take(k + 1).last() == s1[k as int]);
            let kept = keep_fresh_vec(&events[k].1, now, max_age);
            if kept.len() > 0 {
                let id = events[k].0.clone();
                let ghost before = out@;
                out.push((id, kept));
                assert(table_view(out@) =~= table_view(before).push((s1[k as int].0, kept@)));
            }
            k = k + 1;
        }
        assert(s1.take(k as int) =~= s1);
        proof {
            lemma_prune_ids(s1, now, max_age);
        }
        self.events = out;
    }

    /// The mean RSSI of each device, rounded toward zero, in table order.
    pub fn averages(&self) -> (r: Vec<(String, isize)>)
        ensures
            r@.len() == self.readings().len(),
            forall|i: int|
                0 <= i < r@.len() ==> (#[trigger] r@[i]).0@ == self.readings()[i].0 && r@[i].1
                    == mean_rssi(self.readings()[i].1),
    {
        proof {
            use_type_invariant(self);
        }
        let mut r: Vec<(String, isize)> = Vec::new();
        let mut i: usize = 0;
        while i < self.events.len()
            invariant
                self.wf(),
                i <= self.events@.len(),
                r@.len() == i,
                forall|j: int|
                    0 <= j < i ==> (#[trigger] r@[j]).0@ == self.readings()[j].0 && r@[j].1
                        == mean_rssi(self.readings()[j].1),
            decreases self.events@.len() - i,
        {
            assert(self.readings()[i as int].1.len() > 0);
            let m = mean_of(&self.events[i].1);
            r.push((self.events[i].0.clone(), m));
            i = i + 1;
        }
        r
    }
}

} // verus!

verus! {

/// Whether a pose last updated at `last_update` may still be reported at
/// `now`: the update must not lie in the future and must be younger than
/// `max_age`. Times are nanoseconds since the Unix epoch.
pub fn pose_is_fresh(last_update: Option<u128>, now: u128, max_age: u128) -> (r: bool)
    ensures
        r == (last_update matches Some(t) && t <= now && now - t < max_age),
{
    match last_update {
        Some(t) => t <= now && now - t < max_age,
        None => false,
    }
}

/// The interval that an update of the filter works with: the time elapsed
/// from the last update to `now`. There is none without a previous update,
/// nor where the clock went backwards past it.
pub fn update_interval(last_update: Option<u128>, now: u128) -> (r: Option<u128>)
    ensures
        r == (match last_update {
            Some(t) => if t <= now {
                Some((now - t) as u128)
            } else {
                None
            },
            None => None,
        }),
{
    match last_update {
        Some(t) => if t <= now {
            Some(now - t)
        } else {
            None
        },
        None => None,
    }
}

} // verus!
