use vstd::prelude::*;

use crate::address::mac_text;
use crate::scan::{DeviceData as ScannedDevice, Scan};
use crate::table::{find_key, has_key, key_pos, keys_distinct, lemma_key_pos_unique, table_view};

verus! {

broadcast use vstd::string::group_string_axioms;

/// The earliest instant that a chrono `DateTime<Utc>` holds (January 1,
/// 262144 BCE, midnight), in nanoseconds since the Unix epoch.
pub const CALENDAR_MIN_NS: i128 = -8_334_601_228_800_000_000_000;

/// The last nanosecond of December 31, 262142 CE, the latest day that a
/// chrono `DateTime<Utc>` holds, in nanoseconds since the Unix epoch.
pub const CALENDAR_MAX_NS: i128 = 8_210_266_876_799_999_999_999;

/// The instants of a system clock lie within this many nanoseconds of the
/// Unix epoch: whole seconds are kept in an `i64`.
pub const CLOCK_SPAN_NS: i128 = 9_223_372_036_854_775_808_000_000_000;

/// An instant that a calendar date and time can hold.
pub open spec fn in_calendar(t: int) -> bool {
    CALENDAR_MIN_NS <= t <= CALENDAR_MAX_NS
}

/// An instant that the system clock can hold.
pub open spec fn fits_clock(t: int) -> bool {
    -CLOCK_SPAN_NS <= t < CLOCK_SPAN_NS
}

/// Whole milliseconds since the Unix epoch, rounded down, kept in 64 bits.
pub open spec fn unix_millis(t: i128) -> u64 {
    (t as int / 1_000_000) as u64
}

/// `t / 1_000_000`, rounded down, for any `t`.
fn floor_millis(t: i128) -> (q: i128)
    ensures
        q == t as int / 1_000_000,
{
    if t >= 0 {
        ((t as u128) / 1_000_000u128) as i128
    } else {
        let m: u128 = (-(t + 1)) as u128;
        let q: i128 = (m / 1_000_000u128) as i128;
        assert(t as int / 1_000_000 == -(q as int) - 1);
        -q - 1
    }
}

proof fn lemma_low_bits(q: i128)
    ensures
        (q as i64) as u64 == q as u64,
{
    assert((q as i64) as u64 == q as u64) by (bit_vector);
}

/// The milliseconds of an instant, as a `u64` ([`unix_millis`]).
fn millis_of(t: i128) -> (r: u64)
    ensures
        r == unix_millis(t),
{
    let q = floor_millis(t);
    proof {
        lemma_low_bits(q);
    }
    (q as i64) as u64
}

/// One interval during which a device was seen; times are nanoseconds since
/// the Unix epoch, the distance is kept as the bit pattern of an `f32`.
#[derive(Debug, Clone, Copy, PartialEq, Eq, Structural)]
pub struct DeviceLifetimeStep {
    pub time_start: i128,
    pub time_end: i128,
    /// the bit pattern of the `f32` distance to the device
    pub distance_bits: u32,
}

impl DeviceLifetimeStep {
    /// The start in whole milliseconds since the Unix epoch, as the 64 bits
    /// of a `u64`.
    pub fn time_start_millis(&self) -> (r: u64)
        ensures
            r == unix_millis(self.time_start),
    {
        millis_of(self.time_start)
    }

    /// The end in whole milliseconds since the Unix epoch, as the 64 bits of
    /// a `u64`.
    pub fn time_end_millis(&self) -> (r: u64)
        ensures
            r == unix_millis(self.time_end),
    {
        millis_of(self.time_end)
    }
}

/// What the server knows of one device.
#[derive(Debug)]
pub struct DeviceData {
    pub mac_address: String,
    pub name: String,
    pub lifetime: Vec<DeviceLifetimeStep>,
}

/// The mathematical value of a [`DeviceData`].
pub struct DeviceRecord {
    pub mac_address: Seq<char>,
    pub name: Seq<char>,
    pub lifetime: Seq<DeviceLifetimeStep>,
}

impl View for DeviceData {
    type V = DeviceRecord;

    open spec fn view(&self) -> DeviceRecord {
        DeviceRecord { mac_address: self.mac_address@, name: self.name@, lifetime: self.lifetime@ }
    }
}

fn copy_steps(v: &Vec<DeviceLifetimeStep>) -> (r: Vec<DeviceLifetimeStep>)
    ensures
        r@ == v@,
{
    let mut r: Vec<DeviceLifetimeStep> = Vec::new();
    let mut i: usize = 0;
    while i < v.len()
        invariant
            i <= v.len(),
            r@ == v@.take(i as int),
        decreases v.len() - i,
    {
        r.push(v[i]);
        i = i + 1;
        assert(r@ =~= v@.take(i as int));
    }
    assert(v@.take(i as int) =~= v@);
    r
}

impl Clone for DeviceData {
    fn clone(&self) -> (r: Self)
        ensures
            r@ == self@,
    {
        DeviceData {
            mac_address: self.mac_address.clone(),
            name: self.name.clone(),
            lifetime: copy_steps(&self.lifetime),
        }
    }
}

/// The first and the last moment of all scans, in nanoseconds since the
/// Unix epoch.
#[derive(Debug, Clone, Copy, PartialEq, Eq, Structural)]
pub struct TimeLimits {
    pub epoch_start: i128,
    pub epoch_end: i128,
}

/// The devices known at the time a snapshot was asked for.
#[derive(Debug)]
pub struct TimeSnapshot {
    pub time_start: i128,
    pub time_end: i128,
    pub devices: Vec<DeviceData>,
}

/// The largest scan upload, in bytes, that the server keeps in memory.
pub const MAX_SIZE: usize = 262_144;

/// Adds a chunk of an upload to what was received so far, unless the upload
/// would then exceed [`MAX_SIZE`]; `false` leaves the buffer alone.
pub fn append_payload_chunk(raw_data: &mut Vec<u8>, chunk: &[u8]) -> (r: bool)
    ensures
        r == (old(raw_data)@.len() + chunk@.len() <= MAX_SIZE),
        r ==> final(raw_data)@ == old(raw_data)@ + chunk@,
        !r ==> final(raw_data)@ == old(raw_data)@,
{
    if raw_data.len() > MAX_SIZE || chunk.len() > MAX_SIZE - raw_data.len() {
        return false;
    }
    let ghost before = raw_data@;
    raw_data.extend_from_slice(chunk);
    assert(raw_data@ =~= before + chunk@);
    true
}

/// A key of the device table with the record stored under it.
pub type Entry = (Seq<char>, DeviceRecord);

/// The record stored under a key.
pub open spec fn lookup(s: Seq<Entry>, k: Seq<char>) -> Option<DeviceRecord> {
    if has_key(s, k) {
        Some(s[key_pos(s, k)].1)
    } else {
        None
    }
}

/// Every step starts no earlier than the steps before it.
pub open spec fn starts_sorted(lt: Seq<DeviceLifetimeStep>) -> bool {
    forall|i: int, j: int| 0 <= i < j < lt.len() ==> lt[i].time_start <= lt[j].time_start
}

/// A step whose start, in milliseconds, comes after `sm`.
pub open spec fn starts_after(st: DeviceLifetimeStep, sm: u64) -> bool {
    unix_millis(st.time_start) > sm
}

pub open spec fn any_after(lt: Seq<DeviceLifetimeStep>, sm: u64) -> bool {
    exists|i: int| 0 <= i < lt.len() && starts_after(lt[i], sm)
}

pub open spec fn is_first_after(lt: Seq<DeviceLifetimeStep>, sm: u64, i: int) -> bool {
    &&& 0 <= i < lt.len()
    &&& starts_after(lt[i], sm)
    &&& forall|j: int| 0 <= j < i ==> !starts_after(lt[j], sm)
}

/// The first step that starts (in milliseconds) after `sm`.
pub open spec fn first_after(lt: Seq<DeviceLifetimeStep>, sm: u64) -> int {
    choose|i: int| is_first_after(lt, sm, i)
}

/// The step that a scan from `s` to `e` appends.
pub open spec fn scan_step(s: i128, e: i128, dist: u32) -> DeviceLifetimeStep {
    DeviceLifetimeStep { time_start: s, time_end: e, distance_bits: dist }
}

/// A scan appends a step unless some step starts, in milliseconds, after
/// the millisecond in which the scan started.
pub open spec fn merged_lifetime(lt: Seq<DeviceLifetimeStep>, s: i128, e: i128, dist: u32) -> Seq<
    DeviceLifetimeStep,
> {
    if any_after(lt, unix_millis(s)) {
        lt
    } else {
        lt.push(scan_step(s, e, dist))
    }
}

/// A name seen in a scan is taken only while the device has none.
pub open spec fn merged_name(name: Seq<char>, seen: Option<Seq<char>>) -> Seq<char> {
    match seen {
        Some(n) => if name.len() == 0 {
            n
        } else {
            name
        },
        None => name,
    }
}

pub open spec fn merge_record(d: DeviceRecord, seen: Option<Seq<char>>, s: i128, e: i128, dist: u32) -> DeviceRecord {
    DeviceRecord {
        mac_address: d.mac_address,
        name: merged_name(d.name, seen),
        lifetime: merged_lifetime(d.lifetime, s, e, dist),
    }
}

/// The checks that a scan from `s` to `e` makes on a known device: neither
/// time lies before the Unix epoch; a step that starts after the scan must end
/// before it; a step that is appended starts at a calendar instant; and the
/// lifetime comes out sorted by start.
pub open spec fn merge_ok(d: DeviceRecord, s: i128, e: i128) -> bool {
    &&& 0 <= s
    &&& 0 <= e
    &&& any_after(d.lifetime, unix_millis(s)) ==> unix_millis(
        d.lifetime[first_after(d.lifetime, unix_millis(s))].time_end,
    ) < unix_millis(e)
    &&& !any_after(d.lifetime, unix_millis(s)) ==> in_calendar(s as int)
    &&& starts_sorted(merged_lifetime(d.lifetime, s, e, 0))
}

/// A device first seen in a scan has no steps yet.
pub open spec fn new_record(k: Seq<char>, seen: Option<Seq<char>>) -> DeviceRecord {
    DeviceRecord {
        mac_address: k,
        name: match seen {
            Some(n) => n,
            None => Seq::empty(),
        },
        lifetime: Seq::empty(),
    }
}

/// The table after one scanned device.
pub open spec fn put_one(s: Seq<Entry>, k: Seq<char>, seen: Option<Seq<char>>, start: i128, end: i128, dist: u32) -> Seq<Entry> {
    if has_key(s, k) {
        let p = key_pos(s, k);
        s.update(p, (k, merge_record(s[p].1, seen, start, end, dist)))
    } else {
        s.push((k, new_record(k, seen)))
    }
}

pub open spec fn put_one_ok(s: Seq<Entry>, k: Seq<char>, start: i128, end: i128) -> bool {
    has_key(s, k) ==> merge_ok(s[key_pos(s, k)].1, start, end)
}

/// The key under which a scanned device is kept: its address as text.
pub open spec fn scanned_key(d: ScannedDevice) -> Seq<char> {
    mac_text(d.address.0@)
}

pub open spec fn scanned_name(d: ScannedDevice) -> Option<Seq<char>> {
    match d.name {
        Some(n) => Some(n@),
        None => None,
    }
}

/// The table after the first `n` devices of a scan.
pub open spec fn put_scan(s: Seq<Entry>, devs: Seq<ScannedDevice>, dists: Seq<u32>, n: nat, start: i128, end: i128) -> Seq<Entry>
    decreases n,
{
    if n == 0 {
        s
    } else {
        put_one(
            put_scan(s, devs, dists, (n - 1) as nat, start, end),
            scanned_key(devs[n - 1]),
            scanned_name(devs[n - 1]),
            start,
            end,
            dists[n - 1],
        )
    }
}

/// No check fails on the first `n` devices of a scan.
pub open spec fn put_scan_ok(s: Seq<Entry>, devs: Seq<ScannedDevice>, dists: Seq<u32>, n: nat, start: i128, end: i128) -> bool
    decreases n,
{
    n == 0 || (put_scan_ok(s, devs, dists, (n - 1) as nat, start, end) && put_one_ok(
        put_scan(s, devs, dists, (n - 1) as nat, start, end),
        scanned_key(devs[n - 1]),
        start,
        end,
    ))
}

/// When a scan of `duration` milliseconds started, for a clock that read
/// `now` nanoseconds since the Unix epoch.
pub open spec fn scan_start(now: i128, duration: u64) -> int {
    now - duration * 1_000_000
}

/// Every check that recording a scan makes: the start of the scan is a
/// clock instant, no scanned device fails its checks, the end of the scan is
/// a calendar instant, and so is the start when the scan is the first.
pub open spec fn put_devices_ok(
    s: Seq<Entry>,
    limits: Option<TimeLimits>,
    devs: Seq<ScannedDevice>,
    dists: Seq<u32>,
    duration: u64,
    now_start: i128,
    now_end: i128,
) -> bool {
    let start = scan_start(now_start, duration);
    &&& fits_clock(start)
    &&& put_scan_ok(s, devs, dists, devs.len(), start as i128, now_end)
    &&& in_calendar(now_end as int)
    &&& limits is None ==> in_calendar(start)
}

/// The time limits after a scan from `start` to `end`.
pub open spec fn extend_limits(l: Option<TimeLimits>, start: i128, end: i128) -> Option<TimeLimits> {
    match l {
        Some(l) => Some(TimeLimits { epoch_start: l.epoch_start, epoch_end: end }),
        None => Some(TimeLimits { epoch_start: start, epoch_end: end }),
    }
}

proof fn lemma_first_after_unique(lt: Seq<DeviceLifetimeStep>, sm: u64, i: int)
    requires
        is_first_after(lt, sm, i),
    ensures
        first_after(lt, sm) == i,
        any_after(lt, sm),
{
    let c = first_after(lt, sm);
    assert(is_first_after(lt, sm, c));
    if c < i {
        assert(!starts_after(lt[c], sm));
    }
    if i < c {
        assert(!starts_after(lt[i], sm));
    }
}

/// A lifetime with one more step is sorted exactly when the lifetime is and
/// its last step starts no later than the new one.
proof fn lemma_push_sorted(lt: Seq<DeviceLifetimeStep>, st: DeviceLifetimeStep)
    ensures
        starts_sorted(lt.push(st)) == (starts_sorted(lt) && (lt.len() == 0
            || lt.last().time_start <= st.time_start)),
{
    let l2 = lt.push(st);
    if starts_sorted(l2) {
        assert forall|i: int, j: int| 0 <= i < j < lt.len() implies lt[i].time_start
            <= lt[j].time_start by {
            assert(l2[i] == lt[i] && l2[j] == lt[j]);
        }
        if lt.len() > 0 {
            assert(l2[lt.len() - 1] == lt.last());
            assert(l2[lt.len() as int] == st);
        }
    }
    if starts_sorted(lt) && (lt.len() == 0 || lt.last().time_start <= st.time_start) {
        assert forall|i: int, j: int| 0 <= i < j < l2.len() implies l2[i].time_start
            <= l2[j].time_start by {
            assert(l2[i] == lt[i]);
            if j < lt.len() {
                assert(l2[j] == lt[j]);
            } else {
                assert(lt[i].time_start <= lt.last().time_start);
            }
        }
    }
}

/// Every lifetime in the table is sorted by start.
pub open spec fn all_sorted(s: Seq<Entry>) -> bool {
    forall|i: int| 0 <= i < s.len() ==> #[trigger] starts_sorted(s[i].1.lifetime)
}

/// `a` is a prefix of `b`.
pub open spec fn is_prefix(a: Seq<DeviceLifetimeStep>, b: Seq<DeviceLifetimeStep>) -> bool {
    a.len() <= b.len() && b.take(a.len() as int) == a
}

/// What a later table keeps of an earlier one for each key: the key is still
/// there with the same address, a non-empty name is unchanged, and the old
/// lifetime is a prefix of the new one.
pub open spec fn keeps_history(s: Seq<Entry>, t: Seq<Entry>) -> bool {
    forall|k: Seq<char>|
        #[trigger] has_key(s, k) ==> {
            &&& has_key(t, k)
            &&& lookup(t, k)->0.mac_address == lookup(s, k)->0.mac_address
            &&& lookup(s, k)->0.name.len() != 0 ==> lookup(t, k)->0.name == lookup(s, k)->0.name
            &&& is_prefix(lookup(s, k)->0.lifetime, lookup(t, k)->0.lifetime)
        }
}

proof fn lemma_merged_lifetime_starts(lt: Seq<DeviceLifetimeStep>, s: i128, e: i128, d1: u32, d2: u32)
    ensures
        starts_sorted(merged_lifetime(lt, s, e, d1)) == starts_sorted(merged_lifetime(lt, s, e, d2)),
        is_prefix(lt, merged_lifetime(lt, s, e, d1)),
{
    let a = merged_lifetime(lt, s, e, d1);
    let b = merged_lifetime(lt, s, e, d2);
    assert(a.len() == b.len());
    assert(forall|i: int| 0 <= i < a.len() ==> #[trigger] a[i].time_start == b[i].time_start);
    if starts_sorted(a) {
        assert forall|i: int, j: int| 0 <= i < j < b.len() implies b[i].time_start
            <= b[j].time_start by {
            assert(a[i].time_start == b[i].time_start);
            assert(a[j].time_start == b[j].time_start);
        }
    }
    if starts_sorted(b) {
        assert forall|i: int, j: int| 0 <= i < j < a.len() implies a[i].time_start
            <= a[j].time_start by {
            assert(a[i].time_start == b[i].time_start);
            assert(a[j].time_start == b[j].time_start);
        }
    }
    assert(a.take(lt.len() as int) =~= lt);
}

/// One scanned device: the table keeps distinct keys, holds the device
/// afterwards, and leaves every other key as it was.
pub proof fn lemma_put_one(s: Seq<Entry>, k: Seq<char>, seen: Option<Seq<char>>, start: i128, end: i128, dist: u32)
    requires
        keys_distinct(s),
    ensures
        keys_distinct(put_one(s, k, seen, start, end, dist)),
        has_key(put_one(s, k, seen, start, end, dist), k),
        lookup(put_one(s, k, seen, start, end, dist), k) == Some(
            if has_key(s, k) {
                merge_record(lookup(s, k)->0, seen, start, end, dist)
            } else {
                new_record(k, seen)
            },
        ),
        forall|k2: Seq<char>|
            k2 != k ==> #[trigger] lookup(put_one(s, k, seen, start, end, dist), k2) == lookup(s, k2),
        forall|k2: Seq<char>|
            k2 != k ==> #[trigger] has_key(put_one(s, k, seen, start, end, dist), k2) == has_key(s, k2),
{
    let t = put_one(s, k, seen, start, end, dist);
    if has_key(s, k) {
        let p = key_pos(s, k);
        assert(t.len() == s.len());
        assert(forall|i: int| 0 <= i < t.len() ==> #[trigger] t[i].0 == s[i].0);
        lemma_key_pos_unique(t, k, p);
    } else {
        assert(forall|i: int| 0 <= i < s.len() ==> #[trigger] t[i] == s[i]);
        assert forall|i: int, j: int| 0 <= i < j < t.len() implies t[i].0 != t[j].0 by {
            if j == s.len() {
                assert(t[i].0 == s[i].0);
                assert(!(0 <= i < s.len() && s[i].0 == k));
            }
        }
        lemma_key_pos_unique(t, k, s.len() as int);
    }
    assert forall|k2: Seq<char>| k2 != k implies #[trigger] has_key(t, k2) == has_key(s, k2)
        && lookup(t, k2) == lookup(s, k2) by {
        if has_key(s, k2) {
            let q = key_pos(s, k2);
            assert(t[q] == s[q]);
            lemma_key_pos_unique(t, k2, q);
        }
        if has_key(t, k2) {
            let q = key_pos(t, k2);
            assert(q < s.len());
            assert(t[q] == s[q]);
            lemma_key_pos_unique(s, k2, q);
        }
    }
}

/// A whole scan: keys stay distinct, every scanned device is in the table,
/// every key that the scan did not name keeps its record, and every device
/// keeps its history.
pub proof fn lemma_put_scan(
    s: Seq<Entry>,
    devs: Seq<ScannedDevice>,
    dists: Seq<u32>,
    n: nat,
    start: i128,
    end: i128,
)
    requires
        keys_distinct(s),
        n <= devs.len(),
    ensures
        keys_distinct(put_scan(s, devs, dists, n, start, end)),
        forall|i: int| 0 <= i < n ==> has_key(put_scan(s, devs, dists, n, start, end), #[trigger] scanned_key(devs[i])),
        forall|k: Seq<char>|
            (forall|i: int| 0 <= i < n ==> scanned_key(devs[i]) != k) ==> #[trigger] lookup(
                put_scan(s, devs, dists, n, start, end),
                k,
            ) == lookup(s, k),
        keeps_history(s, put_scan(s, devs, dists, n, start, end)),
    decreases n,
{
    if n > 0 {
        let m = (n - 1) as nat;
        lemma_put_scan(s, devs, dists, m, start, end);
        let p = put_scan(s, devs, dists, m, start, end);
        let k = scanned_key(devs[m as int]);
        let seen = scanned_name(devs[m as int]);
        lemma_put_one(p, k, seen, start, end, dists[m as int]);
        let t = put_scan(s, devs, dists, n, start, end);
        assert(t == put_one(p, k, seen, start, end, dists[m as int]));
        assert forall|i: int| 0 <= i < n implies has_key(t, #[trigger] scanned_key(devs[i])) by {
            if i < m {
                if scanned_key(devs[i]) != k {
                    assert(has_key(p, scanned_key(devs[i])));
                }
            }
        }
        assert forall|k2: Seq<char>| has_key(s, k2) implies {
            &&& has_key(t, k2)
            &&& lookup(t, k2)->0.mac_address == lookup(s, k2)->0.mac_address
            &&& lookup(s, k2)->0.name.len() != 0 ==> lookup(t, k2)->0.name == lookup(s, k2)->0.name
            &&& is_prefix(lookup(s, k2)->0.lifetime, lookup(t, k2)->0.lifetime)
        } by {
            assert(has_key(p, k2));
            if k2 == k {
                let r = lookup(p, k2)->0;
                lemma_merged_lifetime_starts(r.lifetime, start, end, dists[m as int], 0);
                let a = lookup(s, k2)->0.lifetime;
                let b = r.lifetime;
                let c = lookup(t, k2)->0.lifetime;
                assert(c.take(b.len() as int) =~= b);
                assert(b.take(a.len() as int) =~= a);
                assert(c.take(a.len() as int) =~= a);
            }
        }
        assert forall|k2: Seq<char>|
            (forall|i: int| 0 <= i < n ==> scanned_key(devs[i]) != k2) implies #[trigger] lookup(t, k2)
            == lookup(s, k2) by {
            assert(scanned_key(devs[m as int]) != k2);
        }
    } else {
        assert forall|k2: Seq<char>| #[trigger] has_key(s, k2) implies is_prefix(
            lookup(s, k2)->0.lifetime,
            lookup(s, k2)->0.lifetime,
        ) by {
            let a = lookup(s, k2)->0.lifetime;
            assert(a.take(a.len() as int) =~= a);
        }
    }
}

/// A scanned device that is kept under `k` and comes with a non-empty name.
pub open spec fn names_device(d: ScannedDevice, k: Seq<char>) -> bool {
    scanned_key(d) == k && match d.name {
        Some(n) => n@.len() > 0,
        None => false,
    }
}

/// A known device whose stored name is empty and that a scan names with a
/// non-empty name has a non-empty name after the scan (names, once
/// non-empty, never change: `keeps_history`).
pub proof fn lemma_put_scan_takes_name(
    s: Seq<Entry>,
    devs: Seq<ScannedDevice>,
    dists: Seq<u32>,
    n: nat,
    start: i128,
    end: i128,
    k: Seq<char>,
)
    requires
        keys_distinct(s),
        n <= devs.len(),
        has_key(s, k),
        exists|i: int|
            0 <= i < n && #[trigger] names_device(devs[i], k),
    ensures
        lookup(put_scan(s, devs, dists, n, start, end), k)->0.name.len() > 0,
    decreases n,
{
    let m = (n - 1) as nat;
    lemma_put_scan(s, devs, dists, m, start, end);
    let p = put_scan(s, devs, dists, m, start, end);
    let km = scanned_key(devs[m as int]);
    let seen = scanned_name(devs[m as int]);
    lemma_put_one(p, km, seen, start, end, dists[m as int]);
    let t = put_scan(s, devs, dists, n, start, end);
    assert(t == put_one(p, km, seen, start, end, dists[m as int]));
    assert(has_key(p, k));
    if exists|i: int|
        0 <= i < m && #[trigger] names_device(devs[i], k) {
        lemma_put_scan_takes_name(s, devs, dists, m, start, end, k);
    } else {
        let i = choose|i: int|
            0 <= i < n && #[trigger] names_device(devs[i], k);
        assert(i == m);
    }
}

/// A scan that passes its checks keeps every lifetime sorted.
pub proof fn lemma_put_scan_sorted(
    s: Seq<Entry>,
    devs: Seq<ScannedDevice>,
    dists: Seq<u32>,
    n: nat,
    start: i128,
    end: i128,
)
    requires
        keys_distinct(s),
        all_sorted(s),
        n <= devs.len(),
        put_scan_ok(s, devs, dists, n, start, end),
    ensures
        all_sorted(put_scan(s, devs, dists, n, start, end)),
    decreases n,
{
    if n > 0 {
        let m = (n - 1) as nat;
        lemma_put_scan_sorted(s, devs, dists, m, start, end);
        lemma_put_scan(s, devs, dists, m, start, end);
        let p = put_scan(s, devs, dists, m, start, end);
        let k = scanned_key(devs[m as int]);
        let seen = scanned_name(devs[m as int]);
        let t = put_scan(s, devs, dists, n, start, end);
        assert(t == put_one(p, k, seen, start, end, dists[m as int]));
        if has_key(p, k) {
            let q = key_pos(p, k);
            lemma_merged_lifetime_starts(p[q].1.lifetime, start, end, dists[m as int], 0);
            assert forall|i: int| 0 <= i < t.len() implies #[trigger] starts_sorted(t[i].1.lifetime) by {
                if i != q {
                    assert(t[i] == p[i]);
                }
            }
        } else {
            assert forall|i: int| 0 <= i < t.len() implies #[trigger] starts_sorted(t[i].1.lifetime) by {
                if i < p.len() {
                    assert(t[i] == p[i]);
                } else {
                    assert(t[i].1.lifetime =~= Seq::<DeviceLifetimeStep>::empty());
                }
            }
        }
    }
}


/// A record that passes the checks of a scan still passes them after the
/// scan is recorded in it.
proof fn lemma_merge_ok_stable(r: DeviceRecord, seen: Option<Seq<char>>, s: i128, e: i128, dist: u32)
    requires
        merge_ok(r, s, e),
    ensures
        merge_ok(merge_record(r, seen, s, e, dist), s, e),
{
    let lt = r.lifetime;
    let sm = unix_millis(s);
    lemma_merged_lifetime_starts(lt, s, e, dist, 0);
    if !any_after(lt, sm) {
        let lt1 = lt.push(scan_step(s, e, dist));
        lemma_push_sorted(lt, scan_step(s, e, 0));
        lemma_push_sorted(lt, scan_step(s, e, dist));
        assert(!any_after(lt1, sm)) by {
            assert forall|i: int| 0 <= i < lt1.len() implies !starts_after(lt1[i], sm) by {
                if i < lt.len() {
                    assert(lt1[i] == lt[i]);
                }
            }
        }
        lemma_push_sorted(lt1, scan_step(s, e, 0));
    }
}

/// The checks that a device new to the table meets when a scan names it
/// again: neither time lies before the Unix epoch and the start is a
/// calendar instant.
pub open spec fn fresh_ok(start: i128, end: i128) -> bool {
    &&& 0 <= start
    &&& 0 <= end
    &&& in_calendar(start as int)
}

/// The device at `i` of a scan was already named earlier in that scan.
pub open spec fn named_before(devs: Seq<ScannedDevice>, i: int) -> bool {
    exists|j: int| 0 <= j < i && scanned_key(devs[j]) == scanned_key(devs[i])
}

/// The checks that the device at `i` of a scan meets, judged on the table as
/// it was before the scan: a known device passes the checks on its stored
/// record; a new device is only checked when the scan names it again.
pub open spec fn device_ok(s: Seq<Entry>, devs: Seq<ScannedDevice>, i: int, start: i128, end: i128) -> bool {
    let k = scanned_key(devs[i]);
    if has_key(s, k) {
        merge_ok(lookup(s, k)->0, start, end)
    } else {
        named_before(devs, i) ==> fresh_ok(start, end)
    }
}

/// The checks of a scan look only at the table as it was before the scan:
/// they pass exactly when every scanned device passes [`device_ok`]. A
/// device that was known before the scan never fails on a later sight in
/// the same scan.
pub proof fn lemma_put_scan_ok_iff(
    s: Seq<Entry>,
    devs: Seq<ScannedDevice>,
    dists: Seq<u32>,
    n: nat,
    start: i128,
    end: i128,
)
    requires
        keys_distinct(s),
        n <= devs.len(),
    ensures
        put_scan_ok(s, devs, dists, n, start, end) <==> (forall|i: int|
            0 <= i < n ==> #[trigger] device_ok(s, devs, i, start, end)),
        forall|i: int|
            0 <= i < n && !has_key(s, #[trigger] scanned_key(devs[i])) ==> !any_after(
                lookup(put_scan(s, devs, dists, n, start, end), scanned_key(devs[i]))->0.lifetime,
                unix_millis(start),
            ),
        put_scan_ok(s, devs, dists, n, start, end) ==> forall|i: int|
            0 <= i < n && (has_key(s, scanned_key(devs[i])) || fresh_ok(start, end)) ==> merge_ok(
                #[trigger] lookup(put_scan(s, devs, dists, n, start, end), scanned_key(devs[i]))->0,
                start,
                end,
            ),
    decreases n,
{
    if n > 0 {
        let m = (n - 1) as nat;
        let sm = unix_millis(start);
        lemma_put_scan_ok_iff(s, devs, dists, m, start, end);
        lemma_put_scan(s, devs, dists, m, start, end);
        let p = put_scan(s, devs, dists, m, start, end);
        let k = scanned_key(devs[m as int]);
        let seen = scanned_name(devs[m as int]);
        let d = dists[m as int];
        lemma_put_one(p, k, seen, start, end, d);
        let t = put_scan(s, devs, dists, n, start, end);
        assert(t == put_one(p, k, seen, start, end, d));
        let ok_m = put_scan_ok(s, devs, dists, m, start, end);
        if named_before(devs, m as int) {
            let i0 = choose|j: int| 0 <= j < m && scanned_key(devs[j]) == scanned_key(devs[m as int]);
            assert(has_key(p, scanned_key(devs[i0])));
            assert(has_key(p, k));
            lemma_key_pos_unique(p, k, key_pos(p, k));
            if has_key(s, k) {
                assert(device_ok(s, devs, i0, start, end) == device_ok(s, devs, m as int, start, end));
                if ok_m {
                    assert(merge_ok(lookup(p, scanned_key(devs[i0]))->0, start, end));
                }
            } else {
                assert(!any_after(lookup(p, scanned_key(devs[i0]))->0.lifetime, sm));
                if ok_m && fresh_ok(start, end) {
                    assert(merge_ok(lookup(p, scanned_key(devs[i0]))->0, start, end));
                }
            }
        } else {
            assert forall|i: int| 0 <= i < m implies scanned_key(devs[i]) != k by {
                if scanned_key(devs[i]) == k {
                    assert(named_before(devs, m as int));
                }
            }
            assert(lookup(p, k) == lookup(s, k));
            if has_key(p, k) {
                assert(lookup(p, k) is Some);
                assert(has_key(s, k));
            }
            if has_key(s, k) {
                assert(lookup(s, k) is Some);
                assert(has_key(p, k));
            }
        }
        if has_key(p, k) {
            assert(lookup(p, k) is Some);
        }
        let rhs_m = forall|i: int| 0 <= i < m ==> #[trigger] device_ok(s, devs, i, start, end);
        let rhs_n = forall|i: int| 0 <= i < n ==> #[trigger] device_ok(s, devs, i, start, end);
        assert(rhs_n <==> (rhs_m && device_ok(s, devs, m as int, start, end)));
        assert forall|i: int|
            0 <= i < n && !has_key(s, #[trigger] scanned_key(devs[i])) implies !any_after(
            lookup(t, scanned_key(devs[i]))->0.lifetime,
            sm,
        ) by {
            let ki = scanned_key(devs[i]);
            if ki != k {
                assert(lookup(t, ki) == lookup(p, ki));
            } else if has_key(p, k) {
                let lt = lookup(p, k)->0.lifetime;
                if i < m {
                    assert(!any_after(lt, sm));
                } else {
                    let i0 = choose|j: int| 0 <= j < m && scanned_key(devs[j]) == scanned_key(devs[m as int]);
                    assert(scanned_key(devs[i0]) == k);
                    assert(!any_after(lt, sm));
                }
                let lt1 = lt.push(scan_step(start, end, d));
                assert(lookup(t, k)->0.lifetime == lt1);
                assert forall|j: int| 0 <= j < lt1.len() implies !starts_after(lt1[j], sm) by {
                    if j < lt.len() {
                        assert(lt1[j] == lt[j]);
                    }
                }
            } else {
                assert(lookup(t, k)->0.lifetime =~= Seq::<DeviceLifetimeStep>::empty());
            }
        }
        if put_scan_ok(s, devs, dists, n, start, end) {
            assert forall|i: int|
                0 <= i < n && (has_key(s, scanned_key(devs[i])) || fresh_ok(start, end)) implies merge_ok(
                #[trigger] lookup(t, scanned_key(devs[i]))->0,
                start,
                end,
            ) by {
                let ki = scanned_key(devs[i]);
                if ki == k {
                    if has_key(p, k) {
                        lemma_merge_ok_stable(lookup(p, k)->0, seen, start, end, d);
                    } else {
                        let nr = new_record(k, seen);
                        assert(!has_key(s, k));
                        assert(!any_after(nr.lifetime, sm));
                        assert(merged_lifetime(nr.lifetime, start, end, 0).len() == 1);
                    }
                } else {
                    assert(lookup(t, ki) == lookup(p, ki));
                }
            }
        }
    }
}

fn find_first_after(lt: &Vec<DeviceLifetimeStep>, s: u64) -> (r: Option<usize>)
    ensures
        match r {
            Some(i) => is_first_after(lt@, s, i as int),
            None => !any_after(lt@, s),
        },
{
    let mut i: usize = 0;
    while i < lt.len()
        invariant
            i <= lt.len(),
            forall|j: int| 0 <= j < i ==> !starts_after(lt@[j], s),
        decreases lt.len() - i,
    {
        if lt[i].time_start_millis() > s {
            return Some(i);
        }
        i = i + 1;
    }
    None
}

fn is_sorted_by_start(lt: &Vec<DeviceLifetimeStep>) -> (r: bool)
    ensures
        r == starts_sorted(lt@),
{
    if lt.len() == 0 {
        return true;
    }
    let mut i: usize = 1;
    while i < lt.len()
        invariant
            1 <= i <= lt.len(),
            forall|a: int, b: int| 0 <= a < b < i ==> lt@[a].time_start <= lt@[b].time_start,
        decreases lt.len() - i,
    {
        if lt[i - 1].time_start > lt[i].time_start {
            return false;
        }
        assert forall|a: int, b: int| 0 <= a < b < i + 1 implies lt@[a].time_start
            <= lt@[b].time_start by {
            if b == i && a < i - 1 {
                assert(lt@[a].time_start <= lt@[i - 1].time_start);
            }
        }
        i = i + 1;
    }
    true
}


/// The checks that a device new to the table meets on a later sight
/// ([`fresh_ok`]).
fn fresh_check(start: i128, end: i128) -> (r: bool)
    ensures
        r == fresh_ok(start, end),
{
    0 <= start && 0 <= end && CALENDAR_MIN_NS <= start && start <= CALENDAR_MAX_NS
}

/// Whether a stored record passes the checks of a scan from `start` to
/// `end` ([`merge_ok`]).
fn merge_check(d: &DeviceData, start: i128, end: i128) -> (r: bool)
    ensures
        r == merge_ok(d@, start, end),
{
    if start < 0 || end < 0 {
        return false;
    }
    let lt = &d.lifetime;
    let sm = millis_of(start);
    match find_first_after(lt, sm) {
        Some(j) => {
            proof {
                lemma_first_after_unique(lt@, sm, j as int);
            }
            let em = millis_of(end);
            lt[j].time_end_millis() < em && is_sorted_by_start(lt)
        },
        None => {
            proof {
                lemma_push_sorted(lt@, scan_step(start, end, 0));
            }
            let last_ok = lt.len() == 0 || lt[lt.len() - 1].time_start <= start;
            CALENDAR_MIN_NS <= start && start <= CALENDAR_MAX_NS && is_sorted_by_start(lt) && last_ok
        },
    }
}

/// The mathematical value of a stored entry.
pub open spec fn entry_view(e: (String, DeviceData)) -> Entry {
    (e.0@, e.1@)
}

pub open spec fn records_of(v: Seq<DeviceData>) -> Seq<DeviceRecord> {
    v.map_values(|d: DeviceData| d@)
}

/// The records of a table, without their keys.
pub open spec fn values_of(s: Seq<Entry>) -> Seq<DeviceRecord> {
    s.map_values(|e: Entry| e.1)
}

pub open spec fn name_view(n: Option<String>) -> Option<Seq<char>> {
    match n {
        Some(s) => Some(s@),
        None => None,
    }
}

/// The devices seen so far, keyed by their address text, and the time span
/// that the scans covered.
pub struct DeviceSharedState {
    devices_map: Vec<(String, DeviceData)>,
    world_limits: Option<TimeLimits>,
    config_path: String,
}


/// Records one scanned device.
fn put_one_into(table: &mut Vec<(String, DeviceData)>, key: String, seen: Option<String>, start: i128, end: i128, dist: u32)
    requires
        keys_distinct(table_view(old(table)@)),
    ensures
        keys_distinct(table_view(final(table)@)),
        table_view(final(table)@) == put_one(table_view(old(table)@), key@, name_view(seen), start, end, dist),
{
    let ghost s0 = table_view(table@);
    match find_key(&*table, &key) {
        Some(i) => {
            let ghost rec = s0[i as int].1;
            match seen {
                Some(n) => {
                    if table[i].1.name.as_str().is_empty() {
                        table[i].1.name = n;
                    }
                },
                None => {},
            }
            let sm = millis_of(start);
            let f = find_first_after(&table[i].1.lifetime, sm);
            if f.is_none() {
                let step = DeviceLifetimeStep { time_start: start, time_end: end, distance_bits: dist };
                table[i].1.lifetime.push(step);
            }
            proof {
                let merged = merge_record(rec, name_view(seen), start, end, dist);
                assert(table_view(table@)[i as int] == (key@, merged));
                assert(table_view(table@) =~= s0.update(i as int, (key@, merged)));
                assert forall|a: int, b: int|
                    0 <= a < b < table_view(table@).len() implies table_view(table@)[a].0
                    != table_view(table@)[b].0 by {
                    assert(table_view(table@)[a].0 == s0[a].0);
                    assert(table_view(table@)[b].0 == s0[b].0);
                }
            }
        },
        None => {
            let name = match seen {
                Some(n) => n,
                None => String::new(),
            };
            let data = DeviceData { mac_address: key.clone(), name, lifetime: Vec::new() };
            table.push((key, data));
            proof {
                assert(table_view(table@) =~= s0.push((key@, new_record(key@, name_view(seen)))));
                assert forall|a: int, b: int|
                    0 <= a < b < table_view(table@).len() implies table_view(table@)[a].0
                    != table_view(table@)[b].0 by {
                    if b < s0.len() {
                        assert(table_view(table@)[a].0 == s0[a].0);
                        assert(table_view(table@)[b].0 == s0[b].0);
                    } else {
                        assert(table_view(table@)[a].0 == s0[a].0);
                    }
                }
            }
        },
    }
}

impl DeviceSharedState {
    /// The table of devices, in the order of first sight.
    pub closed spec fn entries(self) -> Seq<Entry> {
        table_view(self.devices_map@)
    }

    pub closed spec fn limits(self) -> Option<TimeLimits> {
        self.world_limits
    }

    pub closed spec fn path(self) -> Seq<char> {
        self.config_path@
    }

    /// Each address occurs once in the table.
    pub open spec fn wf(self) -> bool {
        keys_distinct(self.entries())
    }

    #[verifier::type_invariant]
    spec fn inv(self) -> bool {
        self.wf()
    }

    /// An empty state that will be saved under `name`.
    pub fn with_config_name(name: &str) -> (r: Self)
        ensures
            r.wf(),
            r.entries() == Seq::<Entry>::empty(),
            r.limits() is None,
            r.path() == name@,
    {
        let r = DeviceSharedState {
            devices_map: Vec::new(),
            world_limits: None,
            config_path: name.to_owned(),
        };
        assert(r.entries() =~= Seq::<Entry>::empty());
        r
    }

    /// A state from its parts; `None` where an address occurs twice.
    pub fn from_parts(
        devices_map: Vec<(String, DeviceData)>,
        world_limits: Option<TimeLimits>,
        config_path: String,
    ) -> (r: Option<Self>)
        ensures
            r is Some <==> keys_distinct(table_view(devices_map@)),
            r matches Some(st) ==> {
                &&& st.wf()
                &&& st.entries() == table_view(devices_map@)
                &&& st.limits() == world_limits
                &&& st.path() == config_path@
            },
    {
        let ghost es = table_view(devices_map@);
        let n = devices_map.len();
        let mut j: usize = 0;
        while j < n
            invariant
                n == devices_map@.len(),
                es == table_view(devices_map@),
                j <= n,
                forall|a: int, b: int| 0 <= a < b < n && a < j ==> es[a].0 != es[b].0,
            decreases n - j,
        {
            let mut k: usize = j + 1;
            while k < n
                invariant
                    n == devices_map@.len(),
                    es == table_view(devices_map@),
                    j < n,
                    j + 1 <= k <= n,
                    forall|a: int, b: int| 0 <= a < b < n && a < j ==> es[a].0 != es[b].0,
                    forall|b: int| j < b < k ==> es[j as int].0 != es[b].0,
                decreases n - k,
            {
                if devices_map[j].0 == devices_map[k].0 {
                    assert(es[j as int].0 == es[k as int].0);
                    return None;
                }
                k = k + 1;
            }
            j = j + 1;
        }
        Some(DeviceSharedState { devices_map, world_limits, config_path })
    }

    /// The table of devices with the key of each.
    pub fn devices_map(&self) -> (r: &Vec<(String, DeviceData)>)
        ensures
            table_view(r@) == self.entries(),
    {
        &self.devices_map
    }

    /// Where the state is saved.
    pub fn config_path(&self) -> (r: &String)
        ensures
            r@ == self.path(),
    {
        &self.config_path
    }

    /// The time span that the scans so far covered.
    pub fn take_limits(&self) -> (r: Option<TimeLimits>)
        ensures
            r == self.limits(),
    {
        self.world_limits
    }

    /// All known devices, each once, with the time span that was asked for.
    pub fn take_snapshot(&self, time_start: i128, time_end: i128) -> (r: Option<TimeSnapshot>)
        ensures
            r matches Some(snap) && snap.time_start == time_start && snap.time_end == time_end
                && records_of(snap.devices@) == values_of(self.entries()),
    {
        let mut devices: Vec<DeviceData> = Vec::new();
        let mut i: usize = 0;
        while i < self.devices_map.len()
            invariant
                i <= self.devices_map@.len(),
                devices@.len() == i,
                records_of(devices@) == values_of(self.entries()).take(i as int),
            decreases self.devices_map@.len() - i,
        {
            let ghost old_d = devices@;
            devices.push(self.devices_map[i].1.clone());
            proof {
                assert forall|j: int| 0 <= j < i + 1 implies #[trigger] records_of(devices@)[j]
                    == values_of(self.entries())[j] by {
                    if j < i {
                        assert(devices@[j] == old_d[j]);
                        assert(records_of(old_d)[j] == values_of(self.entries()).take(i as int)[j]);
                    }
                }
            }
            i = i + 1;
            assert(records_of(devices@) =~= values_of(self.entries()).take(i as int));
        }
        assert(values_of(self.entries()).take(i as int) =~= values_of(self.entries()));
        Some(TimeSnapshot { time_start, time_end, devices })
    }

    /// Whether the device at `i` of a scan passes its checks ([`device_ok`]).
    fn device_check(&self, devices: &Vec<ScannedDevice>, i: usize, start: i128, end: i128) -> (r: bool)
        requires
            i < devices@.len(),
        ensures
            r == device_ok(self.entries(), devices@, i as int, start, end),
    {
        proof {
            use_type_invariant(self);
        }
        let key = devices[i].address.to_string();
        assert(key@ == scanned_key(devices@[i as int]));
        match find_key(&self.devices_map, &key) {
            Some(ix) => {
                assert(lookup(self.entries(), key@)->0 == self.devices_map@[ix as int].1@);
                merge_check(&self.devices_map[ix].1, start, end)
            },
            None => {
                if fresh_check(start, end) {
                    return true;
                }
                let mut j: usize = 0;
                while j < i
                    invariant
                        j <= i,
                        i < devices@.len(),
                        key@ == scanned_key(devices@[i as int]),
                        !has_key(self.entries(), key@),
                        !fresh_ok(start, end),
                        forall|jj: int| 0 <= jj < j ==> scanned_key(devices@[jj]) != key@,
                    decreases i - j,
                {
                    let kj = devices[j].address.to_string();
                    if kj == key {
                        assert(scanned_key(devices@[j as int]) == scanned_key(devices@[i as int]));
                        return false;
                    }
                    j = j + 1;
                }
                true
            },
        }
    }

    /// Whether recording `scan` passes every check that the recording makes
    /// ([`put_devices_ok`]); `put_devices` may be called exactly when it
    /// does. `now_start` and `now_end` are the readings of the system clock,
    /// in nanoseconds since the Unix epoch, that the recording takes.
    pub fn can_put_devices(&self, scan: &Scan, distance_bits: &Vec<u32>, now_start: i128, now_end: i128) -> (r: bool)
        requires
            distance_bits@.len() == scan.devices@.len(),
            fits_clock(now_start as int),
            fits_clock(now_end as int),
        ensures
            r == put_devices_ok(
                self.entries(),
                self.limits(),
                scan.devices@,
                distance_bits@,
                scan.duration,
                now_start,
                now_end,
            ),
    {
        proof {
            use_type_invariant(self);
        }
        let start: i128 = now_start - (scan.duration as i128) * 1_000_000;
        let end = now_end;
        assert(start as int == scan_start(now_start, scan.duration));
        if start < -CLOCK_SPAN_NS || start >= CLOCK_SPAN_NS {
            return false;
        }
        if end < CALENDAR_MIN_NS || end > CALENDAR_MAX_NS {
            return false;
        }
        if self.world_limits.is_none() && (start < CALENDAR_MIN_NS || start > CALENDAR_MAX_NS) {
            return false;
        }
        assert(start == scan_start(now_start, scan.duration) as i128);
        let ghost s0 = self.entries();
        let ghost devs = scan.devices@;
        let ghost ds = distance_bits@;
        let n = scan.devices.len();
        let mut i: usize = 0;
        while i < n
            invariant
                n == devs.len(),
                devs == scan.devices@,
                ds == distance_bits@,
                ds.len() == n,
                i <= n,
                start == scan_start(now_start, scan.duration) as i128,
                fits_clock(scan_start(now_start, scan.duration)),
                in_calendar(end as int),
                end == now_end,
                self.limits() is None ==> in_calendar(start as int),
                s0 == self.entries(),
                self.wf(),
                forall|j: int| 0 <= j < i ==> #[trigger] device_ok(s0, devs, j, start, end),
            decreases n - i,
        {
            if !self.device_check(&scan.devices, i, start, end) {
                proof {
                    lemma_put_scan_ok_iff(s0, devs, ds, n as nat, start, end);
                }
                return false;
            }
            i = i + 1;
        }
        proof {
            lemma_put_scan_ok_iff(s0, devs, ds, n as nat, start, end);
        }
        true
    }

    /// Records the devices of a scan that lasted `scan.duration`
    /// milliseconds, in the order of the scan: the scan started
    /// `scan.duration` milliseconds before the clock read `now_start` and
    /// ended when it read `now_end` (nanoseconds since the Unix epoch).
    /// `distance_bits[i]` is the distance estimated for `scan.devices[i]`.
    /// The checks that the recording makes must pass.
    pub fn put_devices(&mut self, scan: Scan, distance_bits: &Vec<u32>, now_start: i128, now_end: i128)
        requires
            distance_bits@.len() == scan.devices@.len(),
            fits_clock(now_start as int),
            fits_clock(now_end as int),
            put_devices_ok(
                old(self).entries(),
                old(self).limits(),
                scan.devices@,
                distance_bits@,
                scan.duration,
                now_start,
                now_end,
            ),
        ensures
            final(self).wf(),
            final(self).entries() == put_scan(
                old(self).entries(),
                scan.devices@,
                distance_bits@,
                scan.devices@.len(),
                scan_start(now_start, scan.duration) as i128,
                now_end,
            ),
            final(self).limits() == extend_limits(
                old(self).limits(),
                scan_start(now_start, scan.duration) as i128,
                now_end,
            ),
            final(self).path() == old(self).path(),
    {
        proof {
            use_type_invariant(&*self);
        }
        let start: i128 = now_start - (scan.duration as i128) * 1_000_000;
        let end = now_end;
        assert(start == scan_start(now_start, scan.duration) as i128);
        let ghost s0 = self.entries();
        let ghost devs = scan.devices@;
        let ghost ds = distance_bits@;
        let mut table: Vec<(String, DeviceData)> = Vec::new();
        std::mem::swap(&mut table, &mut self.devices_map);
        assert(table_view(table@) == s0);
        let n = scan.devices.len();
        let mut i: usize = 0;
        while i < n
            invariant
                n == devs.len(),
                devs == scan.devices@,
                ds == distance_bits@,
                ds.len() == n,
                i <= n,
                keys_distinct(table_view(table@)),
                table_view(table@) == put_scan(s0, devs, ds, i as nat, start, end),
            decreases n - i,
        {
            let dev = &scan.devices[i];
            let key = dev.address.to_string();
            let seen = match &dev.name {
                Some(nm) => Some(nm.clone()),
                None => None,
            };
            put_one_into(&mut table, key, seen, start, end, distance_bits[i]);
            i = i + 1;
        }
        self.devices_map = table;
        match self.world_limits {
            Some(l) => {
                self.world_limits = Some(TimeLimits { epoch_start: l.epoch_start, epoch_end: end });
            },
            None => {
                self.world_limits = Some(TimeLimits { epoch_start: start, epoch_end: end });
            },
        }
    }
}

} // verus!
