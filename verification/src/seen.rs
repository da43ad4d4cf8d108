use vstd::prelude::*;

use heapless::Deque;

verus! {

#[verifier::external_type_specification]
#[verifier::external_body]
#[verifier::reject_recursive_types(T)]
pub struct ExDeque<T, const N: usize>(Deque<T, N>);

/// The items of a deque of addresses, front first.
pub uninterp spec fn deque_items(d: Deque<u64, 128>) -> Seq<u64>;

/// `heapless::Deque::new`: an empty deque.
#[verifier::external_body]
fn deque_new() -> (r: Deque<u64, 128>)
    ensures
        deque_items(r) == Seq::<u64>::empty(),
{
    Deque::new()
}

/// `heapless::Deque::is_full`: whether the deque holds its capacity of 128
/// items; it never holds more.
#[verifier::external_body]
fn deque_is_full(d: &Deque<u64, 128>) -> (r: bool)
    ensures
        r == (deque_items(*d).len() == 128),
        !r ==> deque_items(*d).len() < 128,
{
    d.is_full()
}

/// `heapless::Deque::pop_front`: removes and returns the front item, or
/// returns `None` and leaves an empty deque alone.
#[verifier::external_body]
fn deque_pop_front(d: &mut Deque<u64, 128>) -> (r: Option<u64>)
    ensures
        deque_items(*old(d)).len() == 0 ==> r is None && deque_items(*final(d)) == deque_items(*old(d)),
        deque_items(*old(d)).len() > 0 ==> r == Some(deque_items(*old(d))[0]) && deque_items(*final(d))
            == deque_items(*old(d)).drop_first(),
{
    d.pop_front()
}

/// `heapless::Deque::push_back`: appends an item, or hands it back when the
/// deque is full and leaves the deque alone.
#[verifier::external_body]
fn deque_push_back(d: &mut Deque<u64, 128>, item: u64) -> (r: Result<(), u64>)
    ensures
        deque_items(*old(d)).len() >= 128 ==> (r matches Err(x) && x == item),
        deque_items(*old(d)).len() >= 128 ==> deque_items(*final(d)) == deque_items(*old(d)),
        deque_items(*old(d)).len() < 128 ==> r is Ok,
        deque_items(*old(d)).len() < 128 ==> deque_items(*final(d)) == deque_items(*old(d)).push(item),
{
    d.push_back(item)
}

/// `heapless::Deque::as_slices`: two slices that hold the items in order.
#[verifier::external_body]
fn deque_as_slices(d: &Deque<u64, 128>) -> (r: (&[u64], &[u64]))
    ensures
        r.0@ + r.1@ == deque_items(*d),
{
    d.as_slices()
}

/// The set of addresses after a report of `addr`: a new address is appended,
/// dropping the oldest when 128 are held; a known one changes nothing.
pub open spec fn remember(items: Seq<u64>, addr: u64) -> Seq<u64> {
    if items.contains(addr) {
        items
    } else if items.len() >= 128 {
        items.drop_first().push(addr)
    } else {
        items.push(addr)
    }
}

/// The remembered addresses after the first `n` reports.
pub open spec fn remember_all(items: Seq<u64>, reports: Seq<u64>, n: nat) -> Seq<u64>
    decreases n,
{
    if n == 0 {
        items
    } else {
        remember(remember_all(items, reports, (n - 1) as nat), reports[n - 1])
    }
}

/// The reports among the first `n` that were new when they came.
pub open spec fn discovered(items: Seq<u64>, reports: Seq<u64>, n: nat) -> Seq<u64>
    decreases n,
{
    if n == 0 {
        seq![]
    } else if remember_all(items, reports, (n - 1) as nat).contains(reports[n - 1]) {
        discovered(items, reports, (n - 1) as nat)
    } else {
        discovered(items, reports, (n - 1) as nat).push(reports[n - 1])
    }
}

/// A reported address is remembered right after its report, the set keeps at
/// most 128 addresses, and no address occurs twice in it.
pub proof fn lemma_remember(items: Seq<u64>, addr: u64)
    requires
        items.len() <= 128,
        items.no_duplicates(),
    ensures
        remember(items, addr).contains(addr),
        remember(items, addr).len() <= 128,
        remember(items, addr).no_duplicates(),
{
    let t = remember(items, addr);
    if !items.contains(addr) {
        let mid = if items.len() >= 128 {
            items.drop_first()
        } else {
            items
        };
        assert(t == mid.push(addr));
        assert(t[t.len() - 1] == addr);
        assert forall|a: int, b: int| 0 <= a < b < t.len() implies t[a] != t[b] by {
            if items.len() >= 128 {
                assert(t[a] == items[a + 1]);
                if b < mid.len() {
                    assert(t[b] == items[b + 1]);
                }
            } else {
                assert(t[a] == items[a]);
                if b < mid.len() {
                    assert(t[b] == items[b]);
                }
            }
        }
    }
}

/// At most the 128 newest of a sequence, in order.
pub open spec fn keep_newest(s: Seq<u64>) -> Seq<u64> {
    if s.len() > 128 {
        s.skip(s.len() - 128)
    } else {
        s
    }
}

/// After a batch of reports, the set is the old addresses followed by the
/// newly discovered ones, in order of discovery, of which the 128 newest
/// stay: the oldest are evicted first and the survivors keep their order.
pub proof fn lemma_remember_all_fifo(items: Seq<u64>, reports: Seq<u64>, n: nat)
    requires
        items.len() <= 128,
        n <= reports.len(),
    ensures
        remember_all(items, reports, n) == keep_newest(items + discovered(items, reports, n)),
    decreases n,
{
    if n == 0 {
        assert(items + Seq::<u64>::empty() =~= items);
    } else {
        let m = (n - 1) as nat;
        lemma_remember_all_fifo(items, reports, m);
        let r = remember_all(items, reports, m);
        let d = discovered(items, reports, m);
        let x = items + d;
        let a = reports[m as int];
        if !r.contains(a) {
            let x2 = items + d.push(a);
            assert(x2 =~= x.push(a));
            if x.len() >= 128 {
                assert(r == x.skip(x.len() - 128));
                assert(r.drop_first().push(a) =~= x2.skip(x2.len() - 128));
            } else {
                assert(r == x);
                assert(r.push(a) =~= x2);
            }
        }
    }
}

/// Whether a deque of addresses holds `addr`.
fn deque_contains(d: &Deque<u64, 128>, addr: u64) -> (r: bool)
    ensures
        r == deque_items(*d).contains(addr),
{
    let (a, b) = deque_as_slices(d);
    let mut i: usize = 0;
    while i < a.len()
        invariant
            i <= a@.len(),
            a@ + b@ == deque_items(*d),
            forall|j: int| 0 <= j < i ==> a@[j] != addr,
        decreases a@.len() - i,
    {
        if a[i] == addr {
            assert((a@ + b@)[i as int] == addr);
            return true;
        }
        i = i + 1;
    }
    let mut k: usize = 0;
    while k < b.len()
        invariant
            k <= b@.len(),
            a@ + b@ == deque_items(*d),
            forall|j: int| 0 <= j < k ==> b@[j] != addr,
        decreases b@.len() - k,
    {
        if b[k] == addr {
            assert((a@ + b@)[a@.len() + k] == addr);
            return true;
        }
        k = k + 1;
    }
    proof {
        let s = a@ + b@;
        assert forall|j: int| 0 <= j < s.len() implies s[j] != addr by {
            if j < a@.len() {
                assert(s[j] == a@[j]);
            } else {
                assert(s[j] == b@[j - a@.len()]);
            }
        }
    }
    false
}

/// The addresses of the most recently discovered advertisers, oldest first,
/// at most 128 of them.
pub struct SeenAddresses {
    seen: Deque<u64, 128>,
}

impl SeenAddresses {
    pub closed spec fn items(self) -> Seq<u64> {
        deque_items(self.seen)
    }

    /// No address twice, and at most 128 of them.
    pub open spec fn wf(self) -> bool {
        self.items().no_duplicates() && self.items().len() <= 128
    }

    #[verifier::type_invariant]
    spec fn inv(self) -> bool {
        self.wf()
    }

    pub fn new() -> (r: Self)
        ensures
            r.wf(),
            r.items() == Seq::<u64>::empty(),
    {
        SeenAddresses { seen: deque_new() }
    }

    /// Whether an address is remembered.
    pub fn contains(&self, addr: u64) -> (r: bool)
        ensures
            r == self.items().contains(addr),
    {
        deque_contains(&self.seen, addr)
    }

    /// Takes in the addresses of a batch of advertising reports, in order,
    /// and returns those that were new, in order.
    pub fn on_adv_reports(&mut self, reports: &Vec<u64>) -> (r: Vec<u64>)
        ensures
            final(self).wf(),
            final(self).items() == remember_all(old(self).items(), reports@, reports@.len()),
            r@ == discovered(old(self).items(), reports@, reports@.len()),
    {
        proof {
            use_type_invariant(&*self);
        }
        let ghost s0 = self.items();
        let mut seen = deque_new();
        std::mem::swap(&mut seen, &mut self.seen);
        let mut found: Vec<u64> = Vec::new();
        let mut i: usize = 0;
        while i < reports.len()
            invariant
                i <= reports@.len(),
                deque_items(seen).no_duplicates(),
                deque_items(seen).len() <= 128,
                deque_items(seen) == remember_all(s0, reports@, i as nat),
                found@ == discovered(s0, reports@, i as nat),
            decreases reports@.len() - i,
        {
            let addr = reports[i];
            proof {
                lemma_remember(deque_items(seen), addr);
            }
            if !deque_contains(&seen, addr) {
                if deque_is_full(&seen) {
                    let _ = deque_pop_front(&mut seen);
                }
                let _ = deque_push_back(&mut seen, addr);
                found.push(addr);
            }
            i = i + 1;
        }
        self.seen = seen;
        found
    }
}

} // verus!
