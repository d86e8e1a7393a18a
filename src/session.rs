//! Session state: the current device list, the user's selection, and the
//! statistics gathered over the session, reconciled once per snapshot.
use vstd::prelude::*;

use crate::device::{dev_views, model_id, transient_key, DeviceView, UsbDevice};
use crate::text::{decimal, push_char, push_decimal};

verus! {

/// std's monotonic clock reading, held opaque.
#[verifier::external_type_specification]
#[verifier::external_body]
pub struct ExInstant(std::time::Instant);

/// Relies on `Instant::now`: the current time, of which nothing is assumed.
pub assume_specification[ std::time::Instant::now ]() -> std::time::Instant;

/// Relies on `Instant::elapsed`: the time since the instant, of which nothing is assumed.
pub assume_specification[ std::time::Instant::elapsed ](
    i: &std::time::Instant,
) -> std::time::Duration;

/// Relies on `Duration::as_secs`: the whole seconds of a duration, of which
/// nothing is assumed here.
pub assume_specification[ core::time::Duration::as_secs ](d: &core::time::Duration) -> u64;

/// A device model: vendor and product id.
pub struct ModelId {
    pub vendor_id: String,
    pub product_id: String,
}

impl View for ModelId {
    type V = (Seq<char>, Seq<char>);

    open spec fn view(&self) -> (Seq<char>, Seq<char>) {
        (self.vendor_id@, self.product_id@)
    }
}

/// A device's place on the host: bus and address.
pub struct TransientKey {
    pub bus: String,
    pub device: String,
}

impl View for TransientKey {
    type V = (Seq<char>, Seq<char>);

    open spec fn view(&self) -> (Seq<char>, Seq<char>) {
        (self.bus@, self.device@)
    }
}

pub open spec fn id_set(v: Seq<ModelId>) -> Set<(Seq<char>, Seq<char>)> {
    Set::new(|m: (Seq<char>, Seq<char>)| exists|i: int| 0 <= i < v.len() && v[i]@ == m)
}

pub open spec fn distinct_ids(v: Seq<ModelId>) -> bool {
    forall|i: int, j: int| 0 <= i < j < v.len() ==> v[i]@ != v[j]@
}

/// The models of the devices of `d`.
pub open spec fn models_of(d: Seq<DeviceView>) -> Set<(Seq<char>, Seq<char>)> {
    Set::new(|m: (Seq<char>, Seq<char>)| exists|i: int| 0 <= i < d.len() && model_id(d[i]) == m)
}

/// The models of the devices of `d` that are in bootloader mode.
pub open spec fn boot_models_of(d: Seq<DeviceView>) -> Set<(Seq<char>, Seq<char>)> {
    Set::new(
        |m: (Seq<char>, Seq<char>)|
            exists|i: int| 0 <= i < d.len() && d[i].is_dfu && model_id(d[i]) == m,
    )
}

/// The transient keys of the devices of `d`.
pub open spec fn keys_of(d: Seq<DeviceView>) -> Set<(Seq<char>, Seq<char>)>
    decreases d.len(),
{
    if d.len() == 0 {
        Set::empty()
    } else {
        keys_of(d.drop_last()).insert(transient_key(d.last()))
    }
}

pub proof fn lemma_keys_of(d: Seq<DeviceView>)
    ensures
        keys_of(d).finite(),
        forall|k: (Seq<char>, Seq<char>)|
            #![trigger keys_of(d).contains(k)]
            keys_of(d).contains(k) <==> exists|i: int|
                0 <= i < d.len() && transient_key(d[i]) == k,
    decreases d.len(),
{
    if d.len() > 0 {
        lemma_keys_of(d.drop_last());
        assert forall|k: (Seq<char>, Seq<char>)| #[trigger]
            keys_of(d).contains(k) implies exists|i: int|
                0 <= i < d.len() && transient_key(d[i]) == k by {
            if k != transient_key(d.last()) {
                let i = choose|i: int|
                    0 <= i < d.drop_last().len() && transient_key(d.drop_last()[i]) == k;
                assert(transient_key(d[i]) == k);
            }
        }
        assert forall|k: (Seq<char>, Seq<char>)|
            (exists|i: int| 0 <= i < d.len() && transient_key(d[i]) == k) implies #[trigger]
            keys_of(d).contains(k) by {
            let i = choose|i: int| 0 <= i < d.len() && transient_key(d[i]) == k;
            if i < d.len() - 1 {
                assert(transient_key(d.drop_last()[i]) == k);
            }
        }
    }
}

/// The first position at or after `i` of a device with key `k`.
pub open spec fn key_position_from(d: Seq<DeviceView>, k: (Seq<char>, Seq<char>), i: int) -> Option<
    int,
>
    decreases d.len() - i,
{
    if i < 0 || i >= d.len() {
        None
    } else if transient_key(d[i]) == k {
        Some(i)
    } else {
        key_position_from(d, k, i + 1)
    }
}

/// The selection after a snapshot `new` replaces `old`, where `sel` was selected.
/// The selected device is followed by its key; where it is gone the index is
/// kept, clamped to the new list; with nothing selected the first device is.
pub open spec fn select_after(sel: Option<int>, old: Seq<DeviceView>, new: Seq<DeviceView>) -> Option<
    int,
> {
    if new.len() == 0 {
        None
    } else {
        match sel {
            Some(i) => match key_position_from(new, transient_key(old[i]), 0) {
                Some(p) => Some(p),
                None => Some(
                    if i < new.len() - 1 {
                        i
                    } else {
                        new.len() - 1
                    },
                ),
            },
            None => Some(0),
        }
    }
}

pub open spec fn opt_int(o: Option<usize>) -> Option<int> {
    match o {
        Some(i) => Some(i as int),
        None => None,
    }
}

/// The number of devices of `d` in bootloader mode.
pub open spec fn dfu_total(d: Seq<DeviceView>) -> nat
    decreases d.len(),
{
    if d.len() == 0 {
        0
    } else {
        dfu_total(d.drop_last()) + if d.last().is_dfu {
            1nat
        } else {
            0
        }
    }
}

/// Counters gathered over a session.
pub struct Stats {
    /// When the session started.
    pub start_time: std::time::Instant,
    pub refresh_count: u64,
    /// Each model ever seen, once.
    pub devices_ever_seen: Vec<ModelId>,
    /// Each model ever seen in bootloader mode, once.
    pub dfu_devices_ever_seen: Vec<ModelId>,
    /// How long building the last snapshot took, in microseconds.
    pub last_refresh_micros: u64,
    pub peak_devices: usize,
    pub connects: u64,
    pub disconnects: u64,
}

/// `n` in at least two digits.
pub open spec fn pad2(n: nat) -> Seq<char> {
    if n < 10 {
        seq!['0'] + decimal(n)
    } else {
        decimal(n)
    }
}

/// A number of seconds as `HH:MM:SS`, or `MM:SS` under an hour.
pub open spec fn clock_text(secs: nat) -> Seq<char> {
    let h = secs / 3600;
    let m = (secs % 3600) / 60;
    let s = secs % 60;
    if h > 0 {
        pad2(h) + seq![':'] + pad2(m) + seq![':'] + pad2(s)
    } else {
        pad2(m) + seq![':'] + pad2(s)
    }
}

fn push_pad2(out: &mut String, n: u64)
    ensures
        final(out)@ == old(out)@ + pad2(n as nat),
{
    if n < 10 {
        push_char(out, '0');
    }
    push_decimal(out, n);
    assert(final(out)@ =~= old(out)@ + pad2(n as nat));
}

/// Writes a number of seconds as a clock reading.
pub fn format_clock(secs: u64) -> (r: String)
    ensures
        r@ == clock_text(secs as nat),
{
    let h = secs / 3600;
    let m = (secs % 3600) / 60;
    let s = secs % 60;
    let mut r = String::new();
    if h > 0 {
        push_pad2(&mut r, h);
        push_char(&mut r, ':');
    }
    push_pad2(&mut r, m);
    push_char(&mut r, ':');
    push_pad2(&mut r, s);
    assert(r@ =~= clock_text(secs as nat));
    r
}

impl Stats {
    pub open spec fn wf(&self) -> bool {
        distinct_ids(self.devices_ever_seen@) && distinct_ids(self.dfu_devices_ever_seen@)
    }

    /// Fresh counters, starting now.
    pub fn new() -> (r: Stats)
        ensures
            r.wf(),
            r.refresh_count == 0,
            r.devices_ever_seen@.len() == 0,
            r.dfu_devices_ever_seen@.len() == 0,
            r.last_refresh_micros == 0,
            r.peak_devices == 0,
            r.connects == 0,
            r.disconnects == 0,
    {
        Stats {
            start_time: std::time::Instant::now(),
            refresh_count: 0,
            devices_ever_seen: Vec::new(),
            dfu_devices_ever_seen: Vec::new(),
            last_refresh_micros: 0,
            peak_devices: 0,
            connects: 0,
            disconnects: 0,
        }
    }

    /// How long the session has run.
    pub fn uptime(&self) -> std::time::Duration {
        self.start_time.elapsed()
    }

    /// How long the session has run, as a clock reading.
    pub fn format_uptime(&self) -> (r: String)
        ensures
            exists|secs: nat| r@ == clock_text(secs),
    {
        let secs = self.uptime().as_secs();
        format_clock(secs)
    }
}

/// Adds the model (`vendor`, `product`) to `seen` unless it is there.
fn note_model(seen: &mut Vec<ModelId>, vendor: &String, product: &String)
    requires
        distinct_ids(old(seen)@),
    ensures
        distinct_ids(final(seen)@),
        id_set(final(seen)@) == id_set(old(seen)@).insert((vendor@, product@)),
{
    let ghost m = (vendor@, product@);
    let mut i: usize = 0;
    while i < seen.len()
        invariant
            i <= seen.len(),
            seen@ == old(seen)@,
            distinct_ids(old(seen)@),
            m == (vendor@, product@),
            forall|j: int| 0 <= j < i ==> seen@[j]@ != m,
        decreases seen.len() - i,
    {
        if seen[i].vendor_id == *vendor && seen[i].product_id == *product {
            assert(id_set(seen@).contains(m));
            assert(id_set(seen@) =~= id_set(seen@).insert(m));
            return;
        }
        i = i + 1;
    }
    let ghost before = seen@;
    seen.push(ModelId { vendor_id: vendor.clone(), product_id: product.clone() });
    assert(seen@[before.len() as int]@ == m);
    assert forall|x: (Seq<char>, Seq<char>)| #[trigger]
        id_set(seen@).contains(x) implies id_set(before).insert(m).contains(x) by {
        let j = choose|j: int| 0 <= j < seen@.len() && seen@[j]@ == x;
        if j < before.len() {
            assert(before[j]@ == x);
        }
    }
    assert forall|x: (Seq<char>, Seq<char>)| #[trigger]
        id_set(before).insert(m).contains(x) implies id_set(seen@).contains(x) by {
        if x != m {
            let j = choose|j: int| 0 <= j < before.len() && before[j]@ == x;
            assert(seen@[j]@ == x);
        }
    }
    assert(id_set(seen@) =~= id_set(before).insert(m));
}

/// Whether one of the first `n` devices of `v` is at (`bus`, `device`).
fn has_key(v: &Vec<UsbDevice>, n: usize, bus: &String, device: &String) -> (r: bool)
    requires
        n <= v.len(),
    ensures
        r == exists|j: int| 0 <= j < n && transient_key(v@[j]@) == (bus@, device@),
{
    let mut i: usize = 0;
    while i < n
        invariant
            i <= n <= v.len(),
            forall|j: int| 0 <= j < i ==> transient_key(v@[j]@) != (bus@, device@),
        decreases n - i,
    {
        if v[i].bus == *bus && v[i].device == *device {
            assert(transient_key(v@[i as int]@) == (bus@, device@));
            return true;
        }
        i = i + 1;
    }
    false
}

/// The number of keys of `a` that `b` lacks.
fn count_new_keys(a: &Vec<UsbDevice>, b: &Vec<UsbDevice>) -> (r: usize)
    ensures
        r == keys_of(dev_views(a@)).difference(keys_of(dev_views(b@))).len(),
        r <= a.len(),
{
    let ghost av = dev_views(a@);
    let ghost bk = keys_of(dev_views(b@));
    proof {
        lemma_keys_of(dev_views(b@));
    }
    let mut count: usize = 0;
    let mut i: usize = 0;
    assert(keys_of(av.take(0)) =~= Set::empty());
    assert(keys_of(av.take(0)).difference(bk) =~= Set::empty());
    while i < a.len()
        invariant
            i <= a.len(),
            count <= i,
            av == dev_views(a@),
            bk == keys_of(dev_views(b@)),
            bk.finite(),
            forall|k: (Seq<char>, Seq<char>)|
                #![trigger bk.contains(k)]
                bk.contains(k) <==> exists|j: int|
                    0 <= j < b@.len() && transient_key(dev_views(b@)[j]) == k,
            count == keys_of(av.take(i as int)).difference(bk).len(),
        decreases a.len() - i,
    {
        let ghost prev = keys_of(av.take(i as int));
        let ghost k = transient_key(av[i as int]);
        assert(av.take(i + 1 as int).drop_last() =~= av.take(i as int));
        assert(keys_of(av.take(i + 1 as int)) == prev.insert(k));
        proof {
            lemma_keys_of(av.take(i as int));
        }
        let in_b = has_key(b, b.len(), &a[i].bus, &a[i].device);
        let seen_before = has_key(a, i, &a[i].bus, &a[i].device);
        proof {
            if in_b {
                let j = choose|j: int|
                    0 <= j < b.len() && transient_key(b@[j]@) == (a@[i as int].bus@, a@[
                        i as int
                    ].device@);
                assert(transient_key(dev_views(b@)[j]) == k);
                assert(bk.contains(k));
                assert(prev.insert(k).difference(bk) =~= prev.difference(bk));
            } else if seen_before {
                let j = choose|j: int|
                    0 <= j < i && transient_key(a@[j]@) == (a@[i as int].bus@, a@[
                        i as int
                    ].device@);
                assert(transient_key(av.take(i as int)[j]) == k);
                assert(prev.contains(k));
                assert(prev.insert(k) =~= prev);
            } else {
                if prev.contains(k) {
                    let j = choose|j: int|
                        0 <= j < av.take(i as int).len() && transient_key(av.take(i as int)[j])
                            == k;
                    assert(transient_key(a@[j]@) == (a@[i as int].bus@, a@[i as int].device@));
                }
                if bk.contains(k) {
                    let j = choose|j: int|
                        0 <= j < b@.len() && transient_key(dev_views(b@)[j]) == k;
                    assert(transient_key(b@[j]@) == (a@[i as int].bus@, a@[i as int].device@));
                }
                assert(prev.insert(k).difference(bk) =~= prev.difference(bk).insert(k));
                assert(!prev.difference(bk).contains(k));
            }
        }
        if !in_b && !seen_before {
            count = count + 1;
        }
        i = i + 1;
    }
    assert(av.take(a.len() as int) =~= av);
    count
}

/// Adds the model of each device to `seen`, and of each device in bootloader mode to `boot`.
fn note_models(seen: &mut Vec<ModelId>, boot: &mut Vec<ModelId>, devices: &Vec<UsbDevice>)
    requires
        distinct_ids(old(seen)@),
        distinct_ids(old(boot)@),
    ensures
        distinct_ids(final(seen)@),
        distinct_ids(final(boot)@),
        id_set(final(seen)@) == id_set(old(seen)@).union(models_of(dev_views(devices@))),
        id_set(final(boot)@) == id_set(old(boot)@).union(boot_models_of(dev_views(devices@))),
{
    let ghost dv = dev_views(devices@);
    let ghost seen0 = id_set(seen@);
    let ghost boot0 = id_set(boot@);
    assert(models_of(dv.take(0)) =~= Set::empty());
    assert(boot_models_of(dv.take(0)) =~= Set::empty());
    assert(seen0.union(Set::empty()) =~= seen0);
    assert(boot0.union(Set::empty()) =~= boot0);
    let mut i: usize = 0;
    while i < devices.len()
        invariant
            i <= devices.len(),
            dv == dev_views(devices@),
            distinct_ids(seen@),
            distinct_ids(boot@),
            id_set(seen@) == seen0.union(models_of(dv.take(i as int))),
            id_set(boot@) == boot0.union(
                boot_models_of(dv.take(i as int)),
            ),
        decreases devices.len() - i,
    {
        let ghost t = dv.take(i as int);
        let ghost t1 = dv.take(i + 1 as int);
        let ghost m = model_id(dv[i as int]);
        assert forall|x: (Seq<char>, Seq<char>)| #[trigger]
            models_of(t1).contains(x) == models_of(t).insert(m).contains(x) by {
            if models_of(t1).contains(x) && x != m {
                let j = choose|j: int| 0 <= j < t1.len() && model_id(t1[j]) == x;
                assert(model_id(t[j]) == x);
            }
            if models_of(t).contains(x) {
                let j = choose|j: int| 0 <= j < t.len() && model_id(t[j]) == x;
                assert(model_id(t1[j]) == x);
            }
            if x == m {
                assert(model_id(t1[i as int]) == x);
            }
        }
        assert(models_of(t1) =~= models_of(t).insert(m));
        assert forall|x: (Seq<char>, Seq<char>)| #[trigger]
            boot_models_of(t1).contains(x) == (if dv[i as int].is_dfu {
                boot_models_of(t).insert(m)
            } else {
                boot_models_of(t)
            }).contains(x) by {
            if boot_models_of(t1).contains(x) && !(x == m && dv[i as int].is_dfu) {
                let j = choose|j: int|
                    0 <= j < t1.len() && t1[j].is_dfu && model_id(t1[j]) == x;
                assert(j < t.len());
                assert(t[j].is_dfu && model_id(t[j]) == x);
            }
            if boot_models_of(t).contains(x) {
                let j = choose|j: int|
                    0 <= j < t.len() && t[j].is_dfu && model_id(t[j]) == x;
                assert(t1[j].is_dfu && model_id(t1[j]) == x);
            }
            if x == m && dv[i as int].is_dfu {
                assert(t1[i as int].is_dfu && model_id(t1[i as int]) == x);
            }
        }
        assert(boot_models_of(t1) =~= if dv[i as int].is_dfu {
            boot_models_of(t).insert(m)
        } else {
            boot_models_of(t)
        });
        let d = &devices[i];
        note_model(seen, &d.vendor_id, &d.product_id);
        if d.is_dfu {
            note_model(boot, &d.vendor_id, &d.product_id);
        }
        assert(id_set(seen@) =~= seen0.union(models_of(t1)));
        assert(id_set(boot@) =~= boot0.union(boot_models_of(t1)));
        i = i + 1;
    }
    assert(dv.take(dv.len() as int) =~= dv);
}

/// The session: the devices of the last snapshot, the selection, and the statistics.
pub struct Session {
    pub devices: Vec<UsbDevice>,
    /// The position of the selected device.
    pub selected: Option<usize>,
    /// The key of the selected device.
    pub selected_key: Option<TransientKey>,
    pub stats: Stats,
}

fn key_of(d: &UsbDevice) -> (r: TransientKey)
    ensures
        r@ == transient_key(d@),
{
    TransientKey { bus: d.bus.clone(), device: d.device.clone() }
}

/// The position of the first device of `v` at `k`.
fn position_of_key(v: &Vec<UsbDevice>, k: &TransientKey) -> (r: Option<usize>)
    ensures
        opt_int(r) == key_position_from(dev_views(v@), k@, 0),
        r matches Some(p) ==> p < v.len(),
{
    let ghost d = dev_views(v@);
    let mut i: usize = 0;
    while i < v.len()
        invariant
            i <= v.len(),
            d == dev_views(v@),
            key_position_from(d, k@, 0) == key_position_from(d, k@, i as int),
        decreases v.len() - i,
    {
        if v[i].bus == k.bus && v[i].device == k.device {
            return Some(i);
        }
        i = i + 1;
    }
    None
}

impl Session {
    pub open spec fn wf(&self) -> bool {
        &&& self.stats.wf()
        &&& match self.selected {
            Some(i) => i < self.devices.len() && self.selected_key is Some
                && self.selected_key->0@ == transient_key(self.devices@[i as int]@),
            None => self.selected_key is None,
        }
    }

    /// A session with no devices, nothing selected, and fresh statistics.
    pub fn new() -> (r: Session)
        ensures
            r.wf(),
            r.devices@.len() == 0,
            r.selected is None,
            r.stats.refresh_count == 0,
            r.stats.devices_ever_seen@.len() == 0,
            r.stats.dfu_devices_ever_seen@.len() == 0,
            r.stats.peak_devices == 0,
            r.stats.connects == 0,
            r.stats.disconnects == 0,
    {
        Session { devices: Vec::new(), selected: None, selected_key: None, stats: Stats::new() }
    }

    /// Applies one snapshot: derives connects and disconnects by key (none on
    /// the first snapshot), updates the statistics, and carries the selection over.
    pub fn update_devices(&mut self, new_devices: Vec<UsbDevice>, refresh_micros: u64)
        requires
            old(self).wf(),
            old(self).stats.refresh_count < u64::MAX,
            old(self).stats.connects + new_devices.len() <= u64::MAX,
            old(self).stats.disconnects + old(self).devices.len() <= u64::MAX,
        ensures
            final(self).wf(),
            final(self).devices@ == new_devices@,
            final(self).stats.refresh_count == old(self).stats.refresh_count + 1,
            final(self).stats.last_refresh_micros == refresh_micros,
            final(self).stats.peak_devices == if new_devices.len() > old(
                self,
            ).stats.peak_devices {
                new_devices.len()
            } else {
                old(self).stats.peak_devices
            },
            old(self).stats.refresh_count == 0 ==> final(self).stats.connects == old(
                self,
            ).stats.connects && final(self).stats.disconnects == old(self).stats.disconnects,
            old(self).stats.refresh_count > 0 ==> final(self).stats.connects == old(
                self,
            ).stats.connects + keys_of(dev_views(new_devices@)).difference(
                keys_of(dev_views(old(self).devices@)),
            ).len() && final(self).stats.disconnects == old(self).stats.disconnects + keys_of(
                dev_views(old(self).devices@),
            ).difference(keys_of(dev_views(new_devices@))).len(),
            id_set(final(self).stats.devices_ever_seen@) == id_set(
                old(self).stats.devices_ever_seen@,
            ).union(models_of(dev_views(new_devices@))),
            id_set(final(self).stats.dfu_devices_ever_seen@) == id_set(
                old(self).stats.dfu_devices_ever_seen@,
            ).union(boot_models_of(dev_views(new_devices@))),
            opt_int(final(self).selected) == select_after(
                opt_int(old(self).selected),
                dev_views(old(self).devices@),
                dev_views(new_devices@),
            ),
    {
        if self.stats.refresh_count > 0 {
            let c = count_new_keys(&new_devices, &self.devices);
            let d = count_new_keys(&self.devices, &new_devices);
            self.stats.connects = self.stats.connects + c as u64;
            self.stats.disconnects = self.stats.disconnects + d as u64;
        }
        let len = new_devices.len();
        let idx: Option<usize> = if len == 0 {
            None
        } else {
            match &self.selected_key {
                Some(k) => match position_of_key(&new_devices, k) {
                    Some(p) => Some(p),
                    None => {
                        let cur = match self.selected {
                            Some(i) => i,
                            None => 0,
                        };
                        Some(
                            if cur < len - 1 {
                                cur
                            } else {
                                len - 1
                            },
                        )
                    },
                },
                None => Some(0),
            }
        };
        note_models(
            &mut self.stats.devices_ever_seen,
            &mut self.stats.dfu_devices_ever_seen,
            &new_devices,
        );
        self.devices = new_devices;
        self.stats.refresh_count = self.stats.refresh_count + 1;
        self.stats.last_refresh_micros = refresh_micros;
        if self.devices.len() > self.stats.peak_devices {
            self.stats.peak_devices = self.devices.len();
        }
        self.selected = idx;
        self.selected_key = match idx {
            Some(j) => Some(key_of(&self.devices[j])),
            None => None,
        };
    }

    /// The selected device, if any.
    pub fn selected_device(&self) -> (r: Option<&UsbDevice>)
        ensures
            match self.selected {
                Some(i) => if i < self.devices.len() {
                    r is Some && *r->0 == self.devices@[i as int]
                } else {
                    r is None
                },
                None => r is None,
            },
    {
        match self.selected {
            Some(i) => if i < self.devices.len() {
                Some(&self.devices[i])
            } else {
                None
            },
            None => None,
        }
    }

    /// Moves the selection one device down, from the last back to the first.
    pub fn next(&mut self)
        requires
            old(self).wf(),
        ensures
            final(self).wf(),
            final(self).devices@ == old(self).devices@,
            final(self).stats == old(self).stats,
            old(self).devices.len() == 0 ==> final(self).selected == old(self).selected,
            old(self).devices.len() > 0 ==> opt_int(final(self).selected) == Some(
                match old(self).selected {
                    Some(i) => if i + 1 >= old(self).devices.len() {
                        0
                    } else {
                        i + 1
                    },
                    None => 0,
                },
            ),
    {
        if self.devices.len() == 0 {
            return;
        }
        let i: usize = match self.selected {
            Some(i) => if i >= self.devices.len() - 1 {
                0
            } else {
                i + 1
            },
            None => 0,
        };
        self.selected = Some(i);
        self.selected_key = Some(key_of(&self.devices[i]));
    }

    /// Moves the selection one device up, from the first round to the last.
    pub fn previous(&mut self)
        requires
            old(self).wf(),
        ensures
            final(self).wf(),
            final(self).devices@ == old(self).devices@,
            final(self).stats == old(self).stats,
            old(self).devices.len() == 0 ==> final(self).selected == old(self).selected,
            old(self).devices.len() > 0 ==> opt_int(final(self).selected) == Some(
                match old(self).selected {
                    Some(i) => if i == 0 {
                        old(self).devices.len() - 1
                    } else {
                        i - 1
                    },
                    None => 0,
                },
            ),
    {
        if self.devices.len() == 0 {
            return;
        }
        let i: usize = match self.selected {
            Some(i) => if i == 0 {
                self.devices.len() - 1
            } else {
                i - 1
            },
            None => 0,
        };
        self.selected = Some(i);
        self.selected_key = Some(key_of(&self.devices[i]));
    }

    /// The number of current devices in bootloader mode.
    pub fn dfu_count(&self) -> (r: usize)
        ensures
            r == dfu_total(dev_views(self.devices@)),
    {
        let ghost dv = dev_views(self.devices@);
        let mut count: usize = 0;
        let mut i: usize = 0;
        assert(dv.take(0) =~= seq![]);
        while i < self.devices.len()
            invariant
                i <= self.devices.len(),
                count <= i,
                dv == dev_views(self.devices@),
                count == dfu_total(dv.take(i as int)),
            decreases self.devices.len() - i,
        {
            assert(dv.take(i + 1 as int).drop_last() =~= dv.take(i as int));
            if self.devices[i].is_dfu {
                count = count + 1;
            }
            i = i + 1;
        }
        assert(dv.take(dv.len() as int) =~= dv);
        count
    }
}


proof fn lemma_key_position_found(d: Seq<DeviceView>, k: (Seq<char>, Seq<char>), i: int, p: int)
    requires
        0 <= i <= p < d.len(),
        transient_key(d[p]) == k,
        forall|j: int| 0 <= j < p ==> transient_key(d[j]) != k,
    ensures
        key_position_from(d, k, i) == Some(p),
    decreases p - i,
{
    if i < p {
        lemma_key_position_found(d, k, i + 1, p);
    }
}

proof fn lemma_key_position_absent(d: Seq<DeviceView>, k: (Seq<char>, Seq<char>), i: int)
    requires
        0 <= i,
        forall|j: int| 0 <= j < d.len() ==> transient_key(d[j]) != k,
    ensures
        key_position_from(d, k, i) is None,
    decreases d.len() - i,
{
    if i < d.len() {
        lemma_key_position_absent(d, k, i + 1);
    }
}

/// Selection follows the key: where the selected device's key stands in the
/// next snapshot, at whatever position, the selection moves to that position.
pub proof fn lemma_selection_follows_key(
    sel: int,
    old: Seq<DeviceView>,
    new: Seq<DeviceView>,
    p: int,
)
    requires
        0 <= sel < old.len(),
        0 <= p < new.len(),
        transient_key(new[p]) == transient_key(old[sel]),
        forall|j: int| 0 <= j < new.len() && j != p ==> transient_key(new[j]) != transient_key(new[p]),
    ensures
        select_after(Some(sel), old, new) == Some(p),
{
    lemma_key_position_found(new, transient_key(old[sel]), 0, p);
}

/// Where the selected device was the last one and is gone from a next
/// snapshot that is not longer, the selection clamps to the new last position.
pub proof fn lemma_selection_clamps_to_last(old: Seq<DeviceView>, new: Seq<DeviceView>)
    requires
        old.len() > 0,
        0 < new.len() <= old.len(),
        forall|j: int| 0 <= j < new.len() ==> transient_key(new[j]) != transient_key(old.last()),
    ensures
        select_after(Some(old.len() - 1), old, new) == Some(new.len() - 1),
{
    lemma_key_position_absent(new, transient_key(old[old.len() - 1]), 0);
}

/// Models are counted by identity: one model seen in two successive
/// snapshots, under two transient keys, adds one entry to the models ever seen.
pub proof fn lemma_model_seen_once(
    seen: Set<(Seq<char>, Seq<char>)>,
    first: DeviceView,
    second: DeviceView,
)
    requires
        model_id(first) == model_id(second),
    ensures
        seen.union(models_of(seq![first])).union(models_of(seq![second])) == seen.insert(
            model_id(first),
        ),
{
    assert(models_of(seq![first]) =~= set![model_id(first)]) by {
        assert(model_id(seq![first][0]) == model_id(first));
    }
    assert(models_of(seq![second]) =~= set![model_id(first)]) by {
        assert(model_id(seq![second][0]) == model_id(second));
    }
    assert(seen.union(models_of(seq![first])).union(models_of(seq![second])) =~= seen.insert(
        model_id(first),
    ));
}

} // verus!
