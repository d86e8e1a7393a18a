//! Terminal-path resolution: the mapping from a USB device's (bus, device
//! number) to the serial terminal node it exposes, and the decisions taken
//! while discovering it.
use vstd::prelude::*;

use crate::text::{
    chars_of, decimal, parse_trimmed_u32, parse_u32, push_chars, push_decimal, slice_of, string_of,
    trim,
};

verus! {

/// How many parent directories are searched for the bus and device number files.
pub const MAX_ANCESTOR_DEPTH: usize = 5;

/// How many indices of each terminal name family are probed directly.
pub const PROBE_COUNT: u64 = 16;

/// One discovered terminal: the device it belongs to and its path.
pub struct TtyEntry {
    pub bus: u32,
    pub dev: u32,
    pub path: String,
}

impl TtyEntry {
    pub open spec fn pair(&self) -> ((u32, u32), Seq<char>) {
        ((self.bus, self.dev), self.path@)
    }

    /// The entry for terminal `name`, whose node is `/dev/<name>`.
    pub fn for_terminal(bus: u32, dev: u32, name: &str) -> (r: TtyEntry)
        ensures
            r.bus == bus,
            r.dev == dev,
            r.path@ == dev_prefix() + name@,
    {
        TtyEntry { bus, dev, path: terminal_path(name) }
    }
}

pub open spec fn pairs(v: Seq<TtyEntry>) -> Seq<((u32, u32), Seq<char>)> {
    v.map_values(|e: TtyEntry| e.pair())
}

/// Adds `v` under `k` unless `k` already has a path.
pub open spec fn record(m: Map<(u32, u32), Seq<char>>, k: (u32, u32), v: Seq<char>) -> Map<
    (u32, u32),
    Seq<char>,
> {
    if m.contains_key(k) {
        m
    } else {
        m.insert(k, v)
    }
}

/// Records each entry of `s` in turn into `m`.
pub open spec fn record_all(m: Map<(u32, u32), Seq<char>>, s: Seq<((u32, u32), Seq<char>)>) -> Map<
    (u32, u32),
    Seq<char>,
>
    decreases s.len(),
{
    if s.len() == 0 {
        m
    } else {
        let prev = record_all(m, s.drop_last());
        record(prev, s.last().0, s.last().1)
    }
}

/// The mapping that a sequence of discoveries gives: the first path found for a key wins.
pub open spec fn first_wins(s: Seq<((u32, u32), Seq<char>)>) -> Map<(u32, u32), Seq<char>> {
    record_all(Map::empty(), s)
}

/// A mapping from (bus, device number) to terminal path.
pub struct TtyMap {
    entries: Vec<TtyEntry>,
}

impl View for TtyMap {
    type V = Map<(u32, u32), Seq<char>>;

    closed spec fn view(&self) -> Map<(u32, u32), Seq<char>> {
        first_wins(pairs(self.entries@))
    }
}

proof fn lemma_first_wins_found(s: Seq<((u32, u32), Seq<char>)>, k: (u32, u32), i: int)
    requires
        0 <= i < s.len(),
        s[i].0 == k,
        forall|j: int| 0 <= j < i ==> s[j].0 != k,
    ensures
        first_wins(s).contains_key(k),
        first_wins(s)[k] == s[i].1,
    decreases s.len(),
{
    if i < s.len() - 1 {
        lemma_first_wins_found(s.drop_last(), k, i);
    } else {
        lemma_first_wins_absent(s.drop_last(), k);
    }
}

proof fn lemma_first_wins_absent(s: Seq<((u32, u32), Seq<char>)>, k: (u32, u32))
    requires
        forall|j: int| 0 <= j < s.len() ==> s[j].0 != k,
    ensures
        !first_wins(s).contains_key(k),
    decreases s.len(),
{
    if s.len() > 0 {
        lemma_first_wins_absent(s.drop_last(), k);
    }
}

impl TtyMap {
    /// An empty mapping.
    pub fn new() -> (r: TtyMap)
        ensures
            r@ == Map::<(u32, u32), Seq<char>>::empty(),
    {
        TtyMap { entries: Vec::new() }
    }

    /// The terminal path recorded for (`bus`, `dev`), if any.
    pub fn get(&self, bus: u32, dev: u32) -> (r: Option<&String>)
        ensures
            match r {
                Some(p) => self@.contains_key((bus, dev)) && self@[(bus, dev)] == p@,
                None => !self@.contains_key((bus, dev)),
            },
    {
        let ghost s = pairs(self.entries@);
        let mut i: usize = 0;
        while i < self.entries.len()
            invariant
                i <= self.entries.len(),
                s == pairs(self.entries@),
                forall|j: int| 0 <= j < i ==> s[j].0 != (bus, dev),
            decreases self.entries.len() - i,
        {
            let e = &self.entries[i];
            if e.bus == bus && e.dev == dev {
                proof {
                    lemma_first_wins_found(s, (bus, dev), i as int);
                }
                return Some(&e.path);
            }
            i = i + 1;
        }
        proof {
            lemma_first_wins_absent(s, (bus, dev));
        }
        None
    }

    /// Records `path` for (`bus`, `dev`) unless a path is already recorded there.
    pub fn insert_first(&mut self, bus: u32, dev: u32, path: String)
        ensures
            final(self)@ == record(old(self)@, (bus, dev), path@),
    {
        let found = self.get(bus, dev).is_some();
        if !found {
            let ghost before = pairs(self.entries@);
            self.entries.push(TtyEntry { bus, dev, path });
            assert(pairs(self.entries@).drop_last() =~= before);
        }
    }
}

/// Combines the discoveries of the two strategies, the first one's before the second's.
pub fn build_tty_map(by_id: &Vec<TtyEntry>, probed: &Vec<TtyEntry>) -> (r: TtyMap)
    ensures
        r@ == first_wins(pairs(by_id@) + pairs(probed@)),
{
    let ghost all = pairs(by_id@) + pairs(probed@);
    let mut m = TtyMap::new();
    let mut i: usize = 0;
    while i < by_id.len()
        invariant
            i <= by_id.len(),
            all == pairs(by_id@) + pairs(probed@),
            m@ == first_wins(all.take(i as int)),
        decreases by_id.len() - i,
    {
        let e = &by_id[i];
        m.insert_first(e.bus, e.dev, e.path.clone());
        assert(all.take(i + 1 as int).drop_last() =~= all.take(i as int));
        i = i + 1;
    }
    let mut j: usize = 0;
    while j < probed.len()
        invariant
            i == by_id.len(),
            j <= probed.len(),
            all == pairs(by_id@) + pairs(probed@),
            m@ == first_wins(all.take(i + j)),
        decreases probed.len() - j,
    {
        let e = &probed[j];
        m.insert_first(e.bus, e.dev, e.path.clone());
        assert(all.take(i + j + 1).drop_last() =~= all.take(i + j));
        j = j + 1;
    }
    assert(all.take(i + j) =~= all);
    m
}

proof fn lemma_record_all_from(m: Map<(u32, u32), Seq<char>>, s: Seq<((u32, u32), Seq<char>)>, k: (
    u32,
    u32,
))
    ensures
        record_all(m, s).contains_key(k) == (m.contains_key(k) || first_wins(s).contains_key(k)),
        m.contains_key(k) ==> record_all(m, s)[k] == m[k],
        !m.contains_key(k) && first_wins(s).contains_key(k) ==> record_all(m, s)[k] == first_wins(
            s,
        )[k],
    decreases s.len(),
{
    if s.len() > 0 {
        lemma_record_all_from(m, s.drop_last(), k);
    }
}

proof fn lemma_record_all_concat(
    m: Map<(u32, u32), Seq<char>>,
    a: Seq<((u32, u32), Seq<char>)>,
    b: Seq<((u32, u32), Seq<char>)>,
)
    ensures
        record_all(m, a + b) == record_all(record_all(m, a), b),
    decreases b.len(),
{
    if b.len() == 0 {
        assert(a + b =~= a);
    } else {
        lemma_record_all_concat(m, a, b.drop_last());
        assert((a + b).drop_last() =~= a + b.drop_last());
    }
}

/// Resolution is additive between the two strategies: a key that the first
/// strategy found keeps the first strategy's path, and a key that it did not
/// find is present exactly when the second strategy found it, with the second
/// strategy's path, whichever of the two strategies runs first.
pub proof fn lemma_resolution_additive(
    first: Seq<((u32, u32), Seq<char>)>,
    second: Seq<((u32, u32), Seq<char>)>,
    k: (u32, u32),
)
    ensures
        first_wins(first).contains_key(k) ==> first_wins(first + second).contains_key(k)
            && first_wins(first + second)[k] == first_wins(first)[k],
        !first_wins(first).contains_key(k) ==> {
            &&& first_wins(first + second).contains_key(k) == first_wins(second).contains_key(k)
            &&& first_wins(second + first).contains_key(k) == first_wins(second).contains_key(k)
            &&& first_wins(second).contains_key(k) ==> first_wins(first + second)[k]
                == first_wins(second)[k] && first_wins(second + first)[k] == first_wins(
                second,
            )[k]
        },
{
    lemma_record_all_concat(Map::empty(), first, second);
    lemma_record_all_concat(Map::empty(), second, first);
    lemma_record_all_from(first_wins(first), second, k);
    lemma_record_all_from(first_wins(second), first, k);
}

/// `/dev/`
pub open spec fn dev_prefix() -> Seq<char> {
    seq!['/', 'd', 'e', 'v', '/']
}

/// `../../`
pub open spec fn link_prefix() -> Seq<char> {
    seq!['.', '.', '/', '.', '.', '/']
}

/// `ttyUSB`
pub open spec fn usb_family() -> Seq<char> {
    seq!['t', 't', 'y', 'U', 'S', 'B']
}

/// `ttyACM`
pub open spec fn acm_family() -> Seq<char> {
    seq!['t', 't', 'y', 'A', 'C', 'M']
}

pub open spec fn starts_with(s: Seq<char>, p: Seq<char>) -> bool {
    p.len() <= s.len() && s.subrange(0, p.len() as int) == p
}

/// The terminal name that a link target `../../<name>` names, where `<name>`
/// is of one of the two serial families.
pub open spec fn link_terminal_name(target: Seq<char>) -> Option<Seq<char>> {
    if starts_with(target, link_prefix()) {
        let name = target.subrange(6, target.len() as int);
        if starts_with(name, usb_family()) || starts_with(name, acm_family()) {
            Some(name)
        } else {
            None
        }
    } else {
        None
    }
}

fn starts_with_chars(s: &Vec<char>, p: &Vec<char>) -> (r: bool)
    ensures
        r == starts_with(s@, p@),
{
    if p.len() > s.len() {
        return false;
    }
    let mut i: usize = 0;
    while i < p.len()
        invariant
            p.len() <= s.len(),
            i <= p.len(),
            forall|j: int| 0 <= j < i ==> s@[j] == p@[j],
        decreases p.len() - i,
    {
        if s[i] != p[i] {
            assert(s@.subrange(0, p.len() as int)[i as int] != p@[i as int]);
            return false;
        }
        i = i + 1;
    }
    assert(s@.subrange(0, p.len() as int) =~= p@);
    true
}

/// The serial terminal name that a stable-identity link points at, if it points at one.
pub fn terminal_name_from_link(target: &str) -> (r: Option<String>)
    ensures
        match r {
            Some(n) => link_terminal_name(target@) == Some(n@),
            None => link_terminal_name(target@) is None,
        },
{
    proof {
        reveal_strlit("../../");
        reveal_strlit("ttyUSB");
        reveal_strlit("ttyACM");
    }
    let t = chars_of(target);
    let lp = chars_of("../../");
    assert(lp@ =~= link_prefix());
    if !starts_with_chars(&t, &lp) {
        return None;
    }
    let name = slice_of(&t, 6, t.len());
    let usb = chars_of("ttyUSB");
    let acm = chars_of("ttyACM");
    assert(usb@ =~= usb_family());
    assert(acm@ =~= acm_family());
    if starts_with_chars(&name, &usb) || starts_with_chars(&name, &acm) {
        Some(string_of(&name))
    } else {
        None
    }
}

/// The device node of terminal `name`.
pub fn terminal_path(name: &str) -> (r: String)
    ensures
        r@ == dev_prefix() + name@,
{
    proof {
        reveal_strlit("/dev/");
    }
    let mut r = string_of(&chars_of("/dev/"));
    push_chars(&mut r, &chars_of(name));
    r
}

/// The `i`-th name probed directly: the sixteen `ttyUSB` names, then the sixteen `ttyACM` names.
pub open spec fn probe_name(i: int) -> Seq<char> {
    if i < PROBE_COUNT {
        usb_family() + decimal(i as nat)
    } else {
        acm_family() + decimal((i - PROBE_COUNT) as nat)
    }
}

/// The terminal names probed directly, `ttyUSB0` to `ttyUSB15` then `ttyACM0` to `ttyACM15`.
pub fn probe_names() -> (r: Vec<String>)
    ensures
        r.len() == 2 * PROBE_COUNT,
        forall|i: int| 0 <= i < r.len() ==> #[trigger] r[i]@ == probe_name(i),
{
    proof {
        reveal_strlit("ttyUSB");
        reveal_strlit("ttyACM");
    }
    let families = [chars_of("ttyUSB"), chars_of("ttyACM")];
    let mut r: Vec<String> = Vec::new();
    let mut f: usize = 0;
    while f < 2
        invariant
            f <= 2,
            families@[0]@ == usb_family(),
            families@[1]@ == acm_family(),
            r.len() == f * PROBE_COUNT,
            forall|i: int| 0 <= i < r.len() ==> #[trigger] r[i]@ == probe_name(i),
        decreases 2 - f,
    {
        let mut n: u64 = 0;
        while n < PROBE_COUNT
            invariant
                f < 2,
                n <= PROBE_COUNT,
                families@[0]@ == usb_family(),
                families@[1]@ == acm_family(),
                r.len() == f * PROBE_COUNT + n,
                forall|i: int| 0 <= i < r.len() ==> #[trigger] r[i]@ == probe_name(i),
            decreases PROBE_COUNT - n,
        {
            let mut name = string_of(&families[f]);
            push_decimal(&mut name, n);
            r.push(name);
            n = n + 1;
        }
        f = f + 1;
    }
    r
}

/// Picks the ancestor level whose number files give the device's bus and device number.
pub fn first_metadata_level(has_both: &Vec<bool>) -> (r: Option<usize>)
    ensures
        match r {
            Some(i) => i < has_both.len() && i < MAX_ANCESTOR_DEPTH && has_both[i as int]
                && forall|j: int| 0 <= j < i ==> !has_both[j],
            None => forall|i: int|
                0 <= i < has_both.len() && i < MAX_ANCESTOR_DEPTH ==> !has_both[i],
        },
{
    let mut i: usize = 0;
    while i < has_both.len() && i < MAX_ANCESTOR_DEPTH
        invariant
            i <= MAX_ANCESTOR_DEPTH,
            i <= has_both.len(),
            forall|j: int| 0 <= j < i ==> !has_both[j],
        decreases MAX_ANCESTOR_DEPTH - i,
    {
        if has_both[i] {
            return Some(i);
        }
        i = i + 1;
    }
    None
}

/// The (bus, device number) pair written in the two number files, each a
/// decimal number with optional surrounding whitespace.
pub fn parse_bus_dev(bus_text: &str, dev_text: &str) -> (r: Option<(u32, u32)>)
    ensures
        r == (match (parse_u32(trim(bus_text@)), parse_u32(trim(dev_text@))) {
            (Some(b), Some(d)) => Some((b, d)),
            _ => None,
        }),
{
    let b = parse_trimmed_u32(bus_text);
    let d = parse_trimmed_u32(dev_text);
    match (b, d) {
        (Some(b), Some(d)) => Some((b, d)),
        _ => None,
    }
}

} // verus!
