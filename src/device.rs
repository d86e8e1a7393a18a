//! Device records and the enumeration listing they are read from.
use vstd::prelude::*;

use crate::text::{
    chars_of, contains, contains_in, find, find_in, is_ws, lemma_find_char, lemma_find_char_none,
    lemma_find_from_first, lemma_words_run, lines, lines_of, occurs_at, parse_u32, parse_u32_chars,
    push_char, push_chars, slice_of, string_of, words, words_acc, words_of,
};
use crate::tty::TtyMap;

verus! {

/// One USB device observed at a point in time.
#[derive(Debug, Clone, PartialEq, Eq, Hash)]
pub struct UsbDevice {
    pub bus: String,
    pub device: String,
    pub vendor_id: String,
    pub product_id: String,
    pub name: String,
    /// Whether the name marks a firmware-update (bootloader) mode.
    pub is_dfu: bool,
    /// The device node `/dev/bus/usb/<bus>/<device>`.
    pub dev_path: String,
    /// The serial terminal node of the device, if it exposes one.
    pub tty_path: Option<String>,
}

/// The value of a `UsbDevice`, with each text as its characters.
pub struct DeviceView {
    pub bus: Seq<char>,
    pub device: Seq<char>,
    pub vendor_id: Seq<char>,
    pub product_id: Seq<char>,
    pub name: Seq<char>,
    pub is_dfu: bool,
    pub dev_path: Seq<char>,
    pub tty_path: Option<Seq<char>>,
}

pub open spec fn opt_view(o: Option<String>) -> Option<Seq<char>> {
    match o {
        Some(s) => Some(s@),
        None => None,
    }
}

impl View for UsbDevice {
    type V = DeviceView;

    open spec fn view(&self) -> DeviceView {
        DeviceView {
            bus: self.bus@,
            device: self.device@,
            vendor_id: self.vendor_id@,
            product_id: self.product_id@,
            name: self.name@,
            is_dfu: self.is_dfu,
            dev_path: self.dev_path@,
            tty_path: opt_view(self.tty_path),
        }
    }
}

pub open spec fn dev_views(v: Seq<UsbDevice>) -> Seq<DeviceView> {
    v.map_values(|d: UsbDevice| d@)
}

/// The transient identity of a device: its bus and its address on that bus.
pub open spec fn transient_key(d: DeviceView) -> (Seq<char>, Seq<char>) {
    (d.bus, d.device)
}

/// The model identity of a device: its vendor and product ids.
pub open spec fn model_id(d: DeviceView) -> (Seq<char>, Seq<char>) {
    (d.vendor_id, d.product_id)
}

pub open spec fn colon() -> Seq<char> {
    seq![':']
}

/// `a:b`
pub open spec fn joined(a: Seq<char>, b: Seq<char>) -> Seq<char> {
    a + colon() + b
}

impl UsbDevice {
    /// The transient key written as `bus:device`.
    pub fn key(&self) -> (r: String)
        ensures
            r@ == joined(self.bus@, self.device@),
    {
        let mut r = self.bus.clone();
        push_char(&mut r, ':');
        push_chars(&mut r, &chars_of(self.device.as_str()));
        r
    }

    /// The model identity written as `vendor:product`.
    pub fn id(&self) -> (r: String)
        ensures
            r@ == joined(self.vendor_id@, self.product_id@),
    {
        let mut r = self.vendor_id.clone();
        push_char(&mut r, ':');
        push_chars(&mut r, &chars_of(self.product_id.as_str()));
        r
    }

    /// The path to show for the device: its terminal node if it has one, else its bus node.
    pub fn display_path(&self) -> (r: &str)
        ensures
            r@ == match self.tty_path {
                Some(t) => t@,
                None => self.dev_path@,
            },
    {
        match &self.tty_path {
            Some(t) => t.as_str(),
            None => self.dev_path.as_str(),
        }
    }
}

/// What `str::to_lowercase` gives for `s`.
pub uninterp spec fn lower_of(s: Seq<char>) -> Seq<char>;

/// Relies on `str::to_lowercase`: the lower-case form of the text, which
/// depends on the characters alone.
#[verifier::external_body]
fn lowercase(s: &str) -> (r: String)
    ensures
        r@ == lower_of(s@),
{
    s.to_lowercase()
}

/// `dfu`
pub open spec fn dfu_marker() -> Seq<char> {
    seq!['d', 'f', 'u']
}

/// `download`
pub open spec fn download_marker() -> Seq<char> {
    seq!['d', 'o', 'w', 'n', 'l', 'o', 'a', 'd']
}

/// `boot`
pub open spec fn boot_marker() -> Seq<char> {
    seq!['b', 'o', 'o', 't']
}

/// A lower-case name that marks a firmware-update (bootloader) mode.
pub open spec fn is_boot_name(lower: Seq<char>) -> bool {
    contains(lower, dfu_marker()) || contains(lower, download_marker()) || contains(
        lower,
        boot_marker(),
    )
}

/// Whether an already lower-cased name holds one of the bootloader markers.
pub fn is_bootloader_name(lower: &str) -> (r: bool)
    ensures
        r == is_boot_name(lower@),
{
    proof {
        reveal_strlit("dfu");
        reveal_strlit("download");
        reveal_strlit("boot");
    }
    let s = chars_of(lower);
    let dfu = chars_of("dfu");
    let download = chars_of("download");
    let boot = chars_of("boot");
    assert(dfu@ =~= dfu_marker());
    assert(download@ =~= download_marker());
    assert(boot@ =~= boot_marker());
    contains_in(&s, &dfu) || contains_in(&s, &download) || contains_in(&s, &boot)
}

/// `: ID `, which parts a listing line's location from its ids.
pub open spec fn id_marker() -> Seq<char> {
    seq![':', ' ', 'I', 'D', ' ']
}

/// `Unknown`, the name of a line that gives none.
pub open spec fn unknown_name() -> Seq<char> {
    seq!['U', 'n', 'k', 'n', 'o', 'w', 'n']
}

/// `/dev/bus/usb/`
pub open spec fn usb_root() -> Seq<char> {
    seq!['/', 'd', 'e', 'v', '/', 'b', 'u', 's', '/', 'u', 's', 'b', '/']
}

/// The fields that a listing line gives.
pub struct LineFields {
    pub bus: Seq<char>,
    pub device: Seq<char>,
    pub vendor_id: Seq<char>,
    pub product_id: Seq<char>,
    pub name: Seq<char>,
}

/// The text after the first `: ID ` of a line.
pub open spec fn line_suffix(line: Seq<char>, p: int) -> Seq<char> {
    line.subrange(p + 5, line.len() as int)
}

/// The id part of the suffix: up to its first space.
pub open spec fn id_part(suffix: Seq<char>) -> Seq<char> {
    match find(suffix, seq![' ']) {
        Some(q) => suffix.subrange(0, q),
        None => suffix,
    }
}

/// The name part of the suffix: after its first space, or `Unknown` where there is none.
pub open spec fn name_part(suffix: Seq<char>) -> Seq<char> {
    match find(suffix, seq![' ']) {
        Some(q) => suffix.subrange(q + 1, suffix.len() as int),
        None => unknown_name(),
    }
}

/// Splits a listing line `Bus <bus> Device <device>: ID <vendor>:<product> <name>`.
/// The location is what stands before the first `: ID `, and must have at
/// least four words, of which the second is the bus and the fourth the device;
/// the ids are the text up to the next space, and hold exactly one `:`.
pub open spec fn split_line(line: Seq<char>) -> Option<LineFields> {
    match find(line, id_marker()) {
        None => None,
        Some(p) => {
            let w = words(line.subrange(0, p));
            let suffix = line_suffix(line, p);
            let id = id_part(suffix);
            if w.len() < 4 {
                None
            } else {
                match find(id, colon()) {
                    None => None,
                    Some(c) => if contains(id.subrange(c + 1, id.len() as int), colon()) {
                        None
                    } else {
                        Some(
                            LineFields {
                                bus: w[1],
                                device: w[3],
                                vendor_id: id.subrange(0, c),
                                product_id: id.subrange(c + 1, id.len() as int),
                                name: name_part(suffix),
                            },
                        )
                    },
                }
            }
        },
    }
}

/// A number written in the listing, or 0 where the text is no number.
pub open spec fn number_or_zero(s: Seq<char>) -> u32 {
    match parse_u32(s) {
        Some(v) => v,
        None => 0,
    }
}

/// The bus device node of a device.
pub open spec fn usb_path(bus: Seq<char>, device: Seq<char>) -> Seq<char> {
    usb_root() + bus + seq!['/'] + device
}

/// The device that the fields of a line describe, with its terminal path taken from `tty`.
pub open spec fn device_of(f: LineFields, tty: Map<(u32, u32), Seq<char>>) -> DeviceView {
    let k = (number_or_zero(f.bus), number_or_zero(f.device));
    DeviceView {
        bus: f.bus,
        device: f.device,
        vendor_id: f.vendor_id,
        product_id: f.product_id,
        name: f.name,
        is_dfu: is_boot_name(lower_of(f.name)),
        dev_path: usb_path(f.bus, f.device),
        tty_path: if tty.contains_key(k) {
            Some(tty[k])
        } else {
            None
        },
    }
}

/// The device that a listing line describes, if it is a device line.
pub open spec fn parse_line(line: Seq<char>, tty: Map<(u32, u32), Seq<char>>) -> Option<
    DeviceView,
> {
    match split_line(line) {
        Some(f) => Some(device_of(f, tty)),
        None => None,
    }
}

fn single(c: char) -> (r: Vec<char>)
    ensures
        r@ == seq![c],
{
    let mut r: Vec<char> = Vec::new();
    r.push(c);
    r
}

fn parse_line_chars(line: &Vec<char>, tty_map: &TtyMap) -> (r: Option<UsbDevice>)
    ensures
        match r {
            Some(d) => parse_line(line@, tty_map@) == Some(d@),
            None => parse_line(line@, tty_map@) is None,
        },
{
    proof {
        reveal_strlit(": ID ");
        reveal_strlit("Unknown");
        reveal_strlit("/dev/bus/usb/");
    }
    let marker = chars_of(": ID ");
    assert(marker@ =~= id_marker());
    let p = match find_in(line, &marker) {
        Some(p) => p,
        None => return None,
    };
    let prefix = slice_of(line, 0, p);
    let suffix = slice_of(line, p + 5, line.len());
    let w = words_of(&prefix);
    assert(w@.len() == words(prefix@).len());
    let space = single(' ');
    let (id, name) = match find_in(&suffix, &space) {
        Some(q) => (slice_of(&suffix, 0, q), slice_of(&suffix, q + 1, suffix.len())),
        None => {
            let u = chars_of("Unknown");
            assert(u@ =~= unknown_name());
            (slice_of(&suffix, 0, suffix.len()), u)
        },
    };
    assert(suffix@.subrange(0, suffix@.len() as int) =~= suffix@);
    assert(id@ == id_part(suffix@));
    assert(name@ == name_part(suffix@));
    if w.len() < 4 {
        return None;
    }
    let sep = single(':');
    let c = match find_in(&id, &sep) {
        Some(c) => c,
        None => return None,
    };
    let rest = slice_of(&id, c + 1, id.len());
    if contains_in(&rest, &sep) {
        return None;
    }
    let vendor = slice_of(&id, 0, c);
    assert(w@[1]@ == words(prefix@)[1]);
    assert(w@[3]@ == words(prefix@)[3]);
    let bus = string_of(&w[1]);
    let device = string_of(&w[3]);
    let name = string_of(&name);
    let lower = lowercase(name.as_str());
    let is_dfu = is_bootloader_name(lower.as_str());
    let mut dev_path = string_of(&chars_of("/dev/bus/usb/"));
    push_chars(&mut dev_path, &w[1]);
    push_char(&mut dev_path, '/');
    push_chars(&mut dev_path, &w[3]);
    let bus_num: u32 = match parse_u32_chars(&w[1]) {
        Some(v) => v,
        None => 0,
    };
    let dev_num: u32 = match parse_u32_chars(&w[3]) {
        Some(v) => v,
        None => 0,
    };
    let tty_path = match tty_map.get(bus_num, dev_num) {
        Some(t) => Some(t.clone()),
        None => None,
    };
    let d = UsbDevice {
        bus,
        device,
        vendor_id: string_of(&vendor),
        product_id: string_of(&rest),
        name,
        is_dfu,
        dev_path,
        tty_path,
    };
    assert(d@.dev_path =~= usb_path(d@.bus, d@.device));
    Some(d)
}

/// Reads one line of the enumeration listing. A line that is not a device
/// line gives `None`.
pub fn parse_lsusb_line(line: &str, tty_map: &TtyMap) -> (r: Option<UsbDevice>)
    ensures
        match r {
            Some(d) => parse_line(line@, tty_map@) == Some(d@),
            None => parse_line(line@, tty_map@) is None,
        },
{
    parse_line_chars(&chars_of(line), tty_map)
}

/// The devices of a listing's lines, in order, each line that is not a device line skipped.
pub open spec fn listing_devices(lines: Seq<Seq<char>>, tty: Map<(u32, u32), Seq<char>>) -> Seq<
    DeviceView,
>
    decreases lines.len(),
{
    if lines.len() == 0 {
        seq![]
    } else {
        let prev = listing_devices(lines.drop_last(), tty);
        match parse_line(lines.last(), tty) {
            Some(d) => prev.push(d),
            None => prev,
        }
    }
}

/// The device list of a snapshot: the devices of the enumeration listing, or
/// none where the enumeration tool could not be run.
pub open spec fn snapshot_devices(
    listing: Option<Seq<char>>,
    tty: Map<(u32, u32), Seq<char>>,
) -> Seq<DeviceView> {
    match listing {
        Some(text) => listing_devices(lines(text), tty),
        None => seq![],
    }
}

/// Combines the enumeration listing (`None` where the tool could not be run)
/// with the terminal mapping into the devices of one snapshot.
pub fn devices_from_listing(listing: Option<&str>, tty_map: &TtyMap) -> (r: Vec<UsbDevice>)
    ensures
        dev_views(r@) == snapshot_devices(
            match listing {
                Some(t) => Some(t@),
                None => None,
            },
            tty_map@,
        ),
{
    let mut r: Vec<UsbDevice> = Vec::new();
    let text = match listing {
        Some(t) => t,
        None => {
            assert(dev_views(r@) =~= seq![]);
            return r;
        },
    };
    let all = lines_of(&chars_of(text));
    let ghost ls = lines(text@);
    assert(dev_views(r@) =~= seq![]);
    assert(ls.take(0) =~= seq![]);
    let mut i: usize = 0;
    while i < all.len()
        invariant
            i <= all.len(),
            ls == lines(text@),
            crate::text::views(all@) == ls,
            dev_views(r@) == listing_devices(ls.take(i as int), tty_map@),
        decreases all.len() - i,
    {
        assert(ls.take(i + 1 as int).drop_last() =~= ls.take(i as int));
        assert(ls.take(i + 1 as int).last() == all@[i as int]@);
        let parsed = parse_line_chars(&all[i], tty_map);
        match parsed {
            Some(d) => {
                let ghost before = dev_views(r@);
                r.push(d);
                assert(dev_views(r@) =~= before.push(d@));
            },
            None => {},
        }
        i = i + 1;
    }
    assert(ls.take(all.len() as int) =~= ls);
    r
}


/// `Bus `
pub open spec fn bus_label() -> Seq<char> {
    seq!['B', 'u', 's', ' ']
}

/// ` Device `
pub open spec fn device_label() -> Seq<char> {
    seq![' ', 'D', 'e', 'v', 'i', 'c', 'e', ' ']
}

/// The listing line of a device: `Bus <bus> Device <device>: ID <vendor>:<product> <name>`.
pub open spec fn device_line(
    bus: Seq<char>,
    device: Seq<char>,
    vendor: Seq<char>,
    product: Seq<char>,
    name: Seq<char>,
) -> Seq<char> {
    bus_label() + bus + device_label() + device + id_marker() + vendor + colon() + product + seq![
        ' ',
    ] + name
}

pub open spec fn no_ws(s: Seq<char>) -> bool {
    forall|i: int| 0 <= i < s.len() ==> !is_ws(#[trigger] s[i])
}

/// Text fit for a vendor or product id: no `:` and no space.
pub open spec fn id_text(s: Seq<char>) -> bool {
    forall|i: int| 0 <= i < s.len() ==> #[trigger] s[i] != ':' && s[i] != ' '
}

/// The location part of a device line: `Bus <bus> Device <device>`.
pub open spec fn location(bus: Seq<char>, device: Seq<char>) -> Seq<char> {
    bus_label() + bus + device_label() + device
}

/// The id part of a device line and what follows: `<vendor>:<product> <name>`.
pub open spec fn ids_and_name(vendor: Seq<char>, product: Seq<char>, name: Seq<char>) -> Seq<char> {
    vendor + colon() + product + seq![' '] + name
}

proof fn lemma_marker_after_location(bus: Seq<char>, device: Seq<char>, tail: Seq<char>)
    requires
        bus.len() > 0,
        device.len() > 0,
        no_ws(bus),
        no_ws(device),
    ensures
        find(location(bus, device) + id_marker() + tail, id_marker()) == Some(
            location(bus, device).len() as int,
        ),
{
    let prefix = location(bus, device);
    let line = prefix + id_marker() + tail;
    let b = bus.len() as int;
    let p = prefix.len() as int;
    assert(line.subrange(p, p + 5) =~= id_marker());
    assert forall|k: int| 0 <= k < p implies !#[trigger] occurs_at(line, id_marker(), k) by {
        if occurs_at(line, id_marker(), k) {
            assert(line.subrange(k, k + 5)[0] == ':');
            assert(line.subrange(k, k + 5)[1] == ' ');
            assert(line.subrange(k, k + 5)[2] == 'I');
            if k < 4 {
                assert(line[k] == bus_label()[k]);
            } else if k < 4 + b {
                assert(line[k] == bus[k - 4]);
                if k + 1 < 4 + b {
                    assert(line[k + 1] == bus[k + 1 - 4]);
                } else {
                    assert(line[k + 2] == device_label()[1]);
                }
            } else if k < 12 + b {
                assert(line[k] == device_label()[k - 4 - b]);
            } else {
                assert(line[k] == device[k - 12 - b]);
                if k + 1 < p {
                    assert(line[k + 1] == device[k + 1 - 12 - b]);
                } else {
                    assert(line[k + 1] == id_marker()[0]);
                }
            }
        }
    }
    lemma_find_from_first(line, id_marker(), 0, p);
}

proof fn lemma_location_words(bus: Seq<char>, device: Seq<char>)
    requires
        bus.len() > 0,
        device.len() > 0,
        no_ws(bus),
        no_ws(device),
    ensures
        words(location(bus, device)) == seq![
            seq!['B', 'u', 's'],
            bus,
            seq!['D', 'e', 'v', 'i', 'c', 'e'],
            device,
        ],
{
    let prefix = location(bus, device);
    let b = bus.len() as int;
    let d = device.len() as int;
    let p = prefix.len() as int;
    let w_bus = seq!['B', 'u', 's'];
    let w_device = seq!['D', 'e', 'v', 'i', 'c', 'e'];
    assert forall|k: int| 0 <= k < 3 implies !is_ws(#[trigger] prefix[k]) by {
        assert(prefix[k] == w_bus[k]);
    }
    lemma_words_run(prefix, 0, seq![], seq![], 3);
    assert(seq![] + prefix.subrange(0, 3) =~= w_bus);
    assert(prefix[3] == ' ');
    assert(words_acc(prefix, 3, seq![], w_bus) == words_acc(prefix, 4, seq![w_bus], seq![]));
    assert forall|k: int| 4 <= k < 4 + b implies !is_ws(#[trigger] prefix[k]) by {
        assert(prefix[k] == bus[k - 4]);
    }
    lemma_words_run(prefix, 4, seq![w_bus], seq![], b);
    assert(seq![] + prefix.subrange(4, 4 + b) =~= bus);
    assert(prefix[4 + b] == ' ');
    assert(seq![w_bus].push(bus) =~= seq![w_bus, bus]);
    assert(words_acc(prefix, 4 + b, seq![w_bus], bus) == words_acc(
        prefix,
        5 + b,
        seq![w_bus, bus],
        seq![],
    ));
    assert forall|k: int| 5 + b <= k < 11 + b implies !is_ws(#[trigger] prefix[k]) by {
        assert(prefix[k] == w_device[k - 5 - b]);
    }
    lemma_words_run(prefix, 5 + b, seq![w_bus, bus], seq![], 6);
    assert(seq![] + prefix.subrange(5 + b, 11 + b) =~= w_device);
    assert(prefix[11 + b] == ' ');
    assert(seq![w_bus, bus].push(w_device) =~= seq![w_bus, bus, w_device]);
    assert(words_acc(prefix, 11 + b, seq![w_bus, bus], w_device) == words_acc(
        prefix,
        12 + b,
        seq![w_bus, bus, w_device],
        seq![],
    ));
    assert forall|k: int| 12 + b <= k < p implies !is_ws(#[trigger] prefix[k]) by {
        assert(prefix[k] == device[k - 12 - b]);
    }
    lemma_words_run(prefix, 12 + b, seq![w_bus, bus, w_device], seq![], d);
    assert(seq![] + prefix.subrange(12 + b, p) =~= device);
    assert(seq![w_bus, bus, w_device].push(device) =~= seq![w_bus, bus, w_device, device]);
}

proof fn lemma_id_fields(vendor: Seq<char>, product: Seq<char>, name: Seq<char>)
    requires
        id_text(vendor),
        id_text(product),
    ensures
        id_part(ids_and_name(vendor, product, name)) == vendor + colon() + product,
        name_part(ids_and_name(vendor, product, name)) == name,
        find(vendor + colon() + product, colon()) == Some(vendor.len() as int),
        (vendor + colon() + product).subrange(0, vendor.len() as int) == vendor,
        (vendor + colon() + product).subrange(
            vendor.len() + 1int,
            (vendor + colon() + product).len() as int,
        ) == product,
        !contains(product, colon()),
{
    let suffix = ids_and_name(vendor, product, name);
    let v = vendor.len() as int;
    let q = v + 1 + product.len();
    assert forall|k: int| 0 <= k < q implies #[trigger] suffix[k] != ' ' by {
        if k < v {
            assert(suffix[k] == vendor[k]);
        } else if k == v {
            assert(suffix[k] == ':');
        } else {
            assert(suffix[k] == product[k - v - 1]);
        }
    }
    assert(suffix[q] == ' ');
    lemma_find_char(suffix, ' ', q);
    let id = suffix.subrange(0, q);
    assert(id =~= vendor + colon() + product);
    assert(suffix.subrange(q + 1, suffix.len() as int) =~= name);
    assert forall|k: int| 0 <= k < v implies #[trigger] id[k] != ':' by {
        assert(id[k] == vendor[k]);
    }
    lemma_find_char(id, ':', v);
    assert(id.subrange(v + 1, id.len() as int) =~= product);
    assert(id.subrange(0, v) =~= vendor);
    lemma_find_char_none(product, ':');
}

/// Parsing is lossless: a listing line written from a bus and a device
/// without whitespace, ids without `:` or space, and any name, gives back
/// exactly those five fields.
pub proof fn lemma_parse_lossless(
    bus: Seq<char>,
    device: Seq<char>,
    vendor: Seq<char>,
    product: Seq<char>,
    name: Seq<char>,
)
    requires
        bus.len() > 0,
        device.len() > 0,
        no_ws(bus),
        no_ws(device),
        id_text(vendor),
        id_text(product),
    ensures
        split_line(device_line(bus, device, vendor, product, name)) == Some(
            LineFields { bus, device, vendor_id: vendor, product_id: product, name },
        ),
{
    let prefix = location(bus, device);
    let suffix = ids_and_name(vendor, product, name);
    let line = device_line(bus, device, vendor, product, name);
    let p = prefix.len() as int;
    assert(line =~= prefix + id_marker() + suffix);
    lemma_marker_after_location(bus, device, suffix);
    assert(line.subrange(0, p) =~= prefix);
    assert(line_suffix(line, p) =~= suffix);
    lemma_location_words(bus, device);
    lemma_id_fields(vendor, product, name);
}


/// Lines are read independently: the devices of two listings put together
/// are those of the first followed by those of the second.
pub proof fn lemma_listing_concat(
    a: Seq<Seq<char>>,
    b: Seq<Seq<char>>,
    tty: Map<(u32, u32), Seq<char>>,
)
    ensures
        listing_devices(a + b, tty) == listing_devices(a, tty) + listing_devices(b, tty),
    decreases b.len(),
{
    if b.len() == 0 {
        assert(a + b =~= a);
        assert(listing_devices(a, tty) + seq![] =~= listing_devices(a, tty));
    } else {
        lemma_listing_concat(a, b.drop_last(), tty);
        assert((a + b).drop_last() =~= a + b.drop_last());
        assert((a + b).last() == b.last());
        match parse_line(b.last(), tty) {
            Some(d) => {
                assert((listing_devices(a, tty) + listing_devices(b.drop_last(), tty)).push(d)
                    =~= listing_devices(a, tty) + listing_devices(b.drop_last(), tty).push(d));
            },
            None => {},
        }
    }
}

/// A line that is not a device line is skipped: it adds no device, and the
/// lines around it give the devices they give alone.
pub proof fn lemma_malformed_line_skipped(
    before: Seq<Seq<char>>,
    line: Seq<char>,
    after: Seq<Seq<char>>,
    tty: Map<(u32, u32), Seq<char>>,
)
    requires
        split_line(line) is None,
    ensures
        listing_devices(before + seq![line] + after, tty) == listing_devices(before, tty)
            + listing_devices(after, tty),
{
    lemma_listing_concat(before + seq![line], after, tty);
    lemma_listing_concat(before, seq![line], tty);
    assert(seq![line].drop_last() =~= Seq::<Seq<char>>::empty());
    assert(parse_line(seq![line].last(), tty) is None);
    assert(listing_devices(Seq::<Seq<char>>::empty(), tty) =~= Seq::<DeviceView>::empty());
    assert(listing_devices(seq![line].drop_last(), tty) =~= Seq::<DeviceView>::empty());
    assert(listing_devices(seq![line], tty) =~= Seq::<DeviceView>::empty());
    assert(listing_devices(before, tty) + Seq::<DeviceView>::empty() =~= listing_devices(
        before,
        tty,
    ));
}

} // verus!
