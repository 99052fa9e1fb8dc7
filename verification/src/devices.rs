//! The devices that a scan has found, and what is known of each.
use crate::identify;
use crate::identify::{IdentifyResult, IdentifyView};
use crate::ipv6;
use crate::ipv6::{Ipv6Neighbor, NeighborView};
use crate::netiface::InterfaceConfig;
use crate::scanner;
use crate::scanner::{ScanResult, ScanView};
use crate::text;
use crate::tools;
use vstd::prelude::*;

verus! {

// ---------------------------------------------------------------------------
// The model
// ---------------------------------------------------------------------------

/// No two rows have the same address.
pub open spec fn distinct_rows(rows: Seq<ScanView>) -> bool {
    forall|i: int, j: int| 0 <= i < j < rows.len() ==> (#[trigger] rows[i]).ip != (#[trigger] rows[j]).ip
}

/// Some row has this address.
pub open spec fn has_row(rows: Seq<ScanView>, ip: Seq<char>) -> bool {
    exists|i: int| 0 <= i < rows.len() && (#[trigger] rows[i]).ip == ip
}

/// No two entries have the same key.
pub open spec fn distinct_keys(entries: Seq<(Seq<char>, IdentifyView)>) -> bool {
    forall|i: int, j: int|
        0 <= i < j < entries.len() ==> (#[trigger] entries[i]).0 != (#[trigger] entries[j]).0
}

/// No text stands twice in the list.
pub open spec fn distinct_texts(list: Seq<Seq<char>>) -> bool {
    forall|i: int, j: int| 0 <= i < j < list.len() ==> #[trigger] list[i] != #[trigger] list[j]
}

/// What is known of an address.
pub open spec fn lookup(entries: Seq<(Seq<char>, IdentifyView)>, ip: Seq<char>) -> Option<IdentifyView>
    decreases entries.len(),
{
    if entries.len() == 0 {
        None
    } else if entries.last().0 == ip {
        Some(entries.last().1)
    } else {
        lookup(entries.drop_last(), ip)
    }
}

/// The devices that are shown and what is known of them.
pub struct DevicesView {
    /// The rows of the list.
    pub rows: Seq<ScanView>,
    /// The end of a scan is still to be told.
    pub pending: bool,
    /// What is known, by address.
    pub known: Seq<(Seq<char>, IdentifyView)>,
    /// The addresses that are being identified.
    pub asked: Seq<Seq<char>>,
}

impl DevicesView {
    /// Nothing has been found yet.
    pub open spec fn begun() -> DevicesView {
        DevicesView { rows: seq![], pending: false, known: seq![], asked: seq![] }
    }

    /// Nothing is listed, known or asked for twice.
    pub open spec fn ok(self) -> bool {
        &&& distinct_rows(self.rows)
        &&& distinct_keys(self.known)
        &&& distinct_texts(self.asked)
    }

    /// A scan begins: the list is empty, what is known stays.
    pub open spec fn scanning(self) -> DevicesView {
        DevicesView { rows: seq![], pending: true, ..self }
    }

    /// The device on a row is still to be identified: it is neither known nor
    /// being identified.
    pub open spec fn wants(self, row: int) -> bool {
        &&& 0 <= row < self.rows.len()
        &&& lookup(self.known, self.rows[row].ip) is None
        &&& !self.asked.contains(self.rows[row].ip)
    }

    /// The device on a row is being identified.
    pub open spec fn asking(self, row: int) -> DevicesView {
        DevicesView { asked: self.asked.push(self.rows[row].ip), ..self }
    }

    /// `after` is the list once it is known what the device with an address
    /// is.
    pub open spec fn told(self, ip: Seq<char>, result: IdentifyView, after: DevicesView) -> bool {
        &&& after.rows == self.rows
        &&& after.pending == self.pending
        &&& forall|k: Seq<char>|
            #[trigger] lookup(after.known, k) == if k == ip {
                Some(result)
            } else {
                lookup(self.known, k)
            }
        &&& forall|k: Seq<char>| #[trigger] after.asked.contains(k) <==> k != ip && self.asked.contains(k)
    }

    /// A host has answered: one that is listed already is not listed again.
    pub open spec fn found(self, host: ScanView) -> DevicesView {
        if has_row(self.rows, host.ip) {
            self
        } else {
            DevicesView { rows: self.rows.push(host), ..self }
        }
    }
}

/// The contents of each entry of what is known.
pub open spec fn known_views(known: Seq<(String, IdentifyResult)>) -> Seq<(Seq<char>, IdentifyView)> {
    known.map_values(|e: (String, IdentifyResult)| (e.0@, e.1@))
}

/// A neighbour as a row of the list.
pub open spec fn neighbor_row(n: NeighborView) -> ScanView {
    ScanView {
        ip: n.address_with_zone,
        mac: match n.mac {
            Some(m) => m.map_values(|c: char| text::upper(c)),
            None => seq![],
        },
    }
}

/// What comes of the selection of a row.
#[derive(Debug, Clone, PartialEq)]
pub enum Selection {
    /// There is no such row.
    Nothing,
    /// What the device is, is known.
    Known,
    /// It is being identified.
    Resolving,
    /// It is to be identified; a device without a valid link-layer address is
    /// too, without its vendor.
    Identify { ip: String, mac: Option<[u8; 6]> },
}

/// The devices that are shown and what is known of them.
pub struct Devices {
    rows: Vec<ScanResult>,
    pending: bool,
    known: Vec<(String, IdentifyResult)>,
    asked: Vec<String>,
}

impl View for Devices {
    type V = DevicesView;

    closed spec fn view(&self) -> DevicesView {
        DevicesView {
            rows: scanner::scan_views(self.rows@),
            pending: self.pending,
            known: known_views(self.known@),
            asked: text::string_views(self.asked@),
        }
    }
}

proof fn lemma_lookup(entries: Seq<(Seq<char>, IdentifyView)>, ip: Seq<char>)
    ensures
        lookup(entries, ip) is Some <==> exists|i: int| 0 <= i < entries.len() && (#[trigger] entries[i]).0 == ip,
        forall|i: int|
            0 <= i < entries.len() && (#[trigger] entries[i]).0 == ip && distinct_keys(entries) ==> lookup(entries, ip)
                == Some(entries[i].1),
    decreases entries.len(),
{
    if entries.len() > 0 {
        let init = entries.drop_last();
        let last = entries.len() - 1;
        lemma_lookup(init, ip);
        if distinct_keys(entries) {
            assert forall|i: int, j: int| 0 <= i < j < init.len() implies (#[trigger] init[i]).0
                != (#[trigger] init[j]).0 by {
                assert(init[i] == entries[i] && init[j] == entries[j]);
            }
        }
        if lookup(entries, ip) is Some {
            if entries[last].0 != ip {
                let i = choose|i: int| 0 <= i < init.len() && (#[trigger] init[i]).0 == ip;
                assert(entries[i].0 == ip);
            }
        }
        assert forall|i: int| 0 <= i < entries.len() && (#[trigger] entries[i]).0 == ip implies lookup(
            entries,
            ip,
        ) is Some && (distinct_keys(entries) ==> lookup(entries, ip) == Some(entries[i].1)) by {
            if i < last {
                assert(init[i] == entries[i]);
                if distinct_keys(entries) {
                    assert(entries[i].0 != entries[last].0);
                }
            }
        }
    }
}

impl Devices {
    /// An empty list.
    pub fn new() -> (r: Devices)
        ensures
            r@ == DevicesView::begun(),
            r@.ok(),
    {
        let r = Devices { rows: Vec::new(), pending: false, known: Vec::new(), asked: Vec::new() };
        assert(r@.rows =~= seq![]);
        assert(r@.known =~= seq![]);
        assert(r@.asked =~= seq![]);
        r
    }

    /// The number of rows.
    pub fn len(&self) -> (r: usize)
        ensures
            r == self@.rows.len(),
    {
        self.rows.len()
    }

    /// One row.
    pub fn row(&self, i: usize) -> (r: &ScanResult)
        requires
            i < self@.rows.len(),
        ensures
            r@ == self@.rows[i as int],
    {
        &self.rows[i]
    }

    /// The row with this address.
    pub fn find_row_by_ip(&self, ip: &str) -> (r: Option<usize>)
        ensures
            match r {
                Some(i) => i < self@.rows.len() && self@.rows[i as int].ip == ip@ && forall|j: int|
                    0 <= j < i ==> (#[trigger] self@.rows[j]).ip != ip@,
                None => !has_row(self@.rows, ip@),
            },
    {
        let ghost v = self@.rows;
        let mut i: usize = 0;
        while i < self.rows.len()
            invariant
                v == self@.rows,
                i <= self.rows@.len(),
                forall|j: int| 0 <= j < i ==> (#[trigger] v[j]).ip != ip@,
            decreases self.rows@.len() - i,
        {
            assert(v[i as int] == self.rows@[i as int]@);
            if text::str_same(self.rows[i].ip.as_str(), ip) {
                return Some(i);
            }
            i += 1;
        }
        None
    }

    /// Begins a scan.
    pub fn scan_started(&mut self)
        requires
            old(self)@.ok(),
        ensures
            final(self)@ == old(self)@.scanning(),
            final(self)@.ok(),
    {
        self.rows = Vec::new();
        self.pending = true;
        assert(self@.rows =~= seq![]);
    }

    /// Lists a host that has answered, and tells whether it is new.
    pub fn drain_scan_results(&mut self, host: ScanResult) -> (r: bool)
        requires
            old(self)@.ok(),
        ensures
            final(self)@ == old(self)@.found(host@),
            final(self)@.ok(),
            r == !has_row(old(self)@.rows, host@.ip),
    {
        if self.find_row_by_ip(host.ip.as_str()).is_some() {
            assert(has_row(self@.rows, host@.ip));
            return false;
        }
        let ghost before = self@;
        self.rows.push(host);
        proof {
            assert(self@.rows =~= before.rows.push(host@));
            assert forall|i: int, j: int| 0 <= i < j < self@.rows.len() implies (#[trigger] self@.rows[i]).ip
                != (#[trigger] self@.rows[j]).ip by {
                assert(self@.rows[i] == before.rows[i]);
                if j < before.rows.len() {
                    assert(self@.rows[j] == before.rows[j]);
                }
            }
        }
        true
    }

    /// Lists a neighbour, and tells whether it is new.
    pub fn drain_ipv6_results(&mut self, neighbor: &Ipv6Neighbor) -> (r: bool)
        requires
            old(self)@.ok(),
            neighbor.ok(),
        ensures
            final(self)@ == old(self)@.found(neighbor_row(neighbor@)),
            final(self)@.ok(),
            r == !has_row(old(self)@.rows, neighbor@.address_with_zone),
    {
        let host = ScanResult { ip: neighbor.address_with_zone.clone(), mac: ipv6::shown_mac(neighbor) };
        assert(host@ == neighbor_row(neighbor@));
        self.drain_scan_results(host)
    }

    /// Tells whether the end of the scan is to be told now: once, when both of
    /// its halves have ended and all that they found is listed.
    pub fn try_report_scan_complete(
        &mut self,
        scan_running: bool,
        ipv6_running: bool,
        scan_open: bool,
        ipv6_open: bool,
    ) -> (r: bool)
        requires
            old(self)@.ok(),
        ensures
            r == (old(self)@.pending && !scan_running && !ipv6_running && !scan_open && !ipv6_open),
            final(self)@ == (DevicesView { pending: old(self)@.pending && !r, ..old(self)@ }),
            final(self)@.ok(),
    {
        if !self.pending || scan_running || ipv6_running || scan_open || ipv6_open {
            return false;
        }
        self.pending = false;
        true
    }

    fn place_known(&self, ip: &str) -> (r: Option<usize>)
        ensures
            match r {
                Some(i) => i < self@.known.len() && self@.known[i as int].0 == ip@,
                None => forall|j: int| 0 <= j < self@.known.len() ==> (#[trigger] self@.known[j]).0 != ip@,
            },
    {
        let ghost v = self@.known;
        let mut i: usize = 0;
        while i < self.known.len()
            invariant
                v == self@.known,
                i <= self.known@.len(),
                forall|j: int| 0 <= j < i ==> (#[trigger] v[j]).0 != ip@,
            decreases self.known@.len() - i,
        {
            assert(v[i as int] == (self.known@[i as int].0@, self.known@[i as int].1@));
            if text::str_same(self.known[i].0.as_str(), ip) {
                return Some(i);
            }
            i += 1;
        }
        None
    }

    /// What is known of an address.
    pub fn known(&self, ip: &str) -> (r: Option<&IdentifyResult>)
        requires
            self@.ok(),
        ensures
            match r {
                Some(result) => lookup(self@.known, ip@) == Some(result@),
                None => lookup(self@.known, ip@) is None,
            },
    {
        proof {
            lemma_lookup(self@.known, ip@);
        }
        match self.place_known(ip) {
            Some(i) => {
                assert(self@.known[i as int] == (self.known@[i as int].0@, self.known@[i as int].1@));
                Some(&self.known[i].1)
            },
            None => None,
        }
    }

    /// Selects a row, and tells what is to be done for it.
    pub fn on_list_select(&mut self, row: usize) -> (r: Selection)
        requires
            old(self)@.ok(),
        ensures
            final(self)@.ok(),
            final(self)@ == if old(self)@.wants(row as int) {
                old(self)@.asking(row as int)
            } else {
                old(self)@
            },
            match r {
                Selection::Nothing => row >= old(self)@.rows.len(),
                Selection::Known => row < old(self)@.rows.len() && lookup(
                    old(self)@.known,
                    old(self)@.rows[row as int].ip,
                ) is Some,
                Selection::Resolving => row < old(self)@.rows.len() && lookup(
                    old(self)@.known,
                    old(self)@.rows[row as int].ip,
                ) is None && old(self)@.asked.contains(old(self)@.rows[row as int].ip),
                Selection::Identify { ip, mac } => old(self)@.wants(row as int) && ip@
                    == old(self)@.rows[row as int].ip && (match mac {
                    Some(m) => tools::mac_bytes(old(self)@.rows[row as int].mac) == Some(m@),
                    None => tools::mac_bytes(old(self)@.rows[row as int].mac) is None,
                }),
            },
    {
        if row >= self.rows.len() {
            return Selection::Nothing;
        }
        assert(self@.rows[row as int] == self.rows@[row as int]@);
        let ip = self.rows[row].ip.clone();
        if self.known(ip.as_str()).is_some() {
            return Selection::Known;
        }
        match text::place_of(self.asked.as_slice(), ip.as_str()) {
            Some(i) => {
                assert(self@.asked[i as int] == ip@);
                return Selection::Resolving;
            },
            None => {},
        }
        let mac = tools::parse_mac(self.rows[row].mac.as_str());
        let ghost before = self@;
        self.asked.push(ip.clone());
        proof {
            assert(self@.asked =~= before.asked.push(ip@));
            assert forall|i: int, j: int| 0 <= i < j < self@.asked.len() implies #[trigger] self@.asked[i]
                != #[trigger] self@.asked[j] by {
                assert(self@.asked[i] == before.asked[i]);
                if j < before.asked.len() {
                    assert(self@.asked[j] == before.asked[j]);
                }
            }
        }
        Selection::Identify { ip: ip, mac: mac }
    }

    /// Takes note of what a device is, and gives its row, if it is listed.
    pub fn drain_identify_results(&mut self, ip: &str, result: IdentifyResult) -> (r: Option<usize>)
        requires
            old(self)@.ok(),
        ensures
            final(self)@.ok(),
            old(self)@.told(ip@, result@, final(self)@),
            match r {
                Some(i) => i < final(self)@.rows.len() && final(self)@.rows[i as int].ip == ip@,
                None => !has_row(final(self)@.rows, ip@),
            },
    {
        self.learn(ip, result);
        self.answered(ip);
        self.find_row_by_ip(ip)
    }

    fn learn(&mut self, ip: &str, result: IdentifyResult)
        requires
            old(self)@.ok(),
        ensures
            final(self)@.ok(),
            final(self)@.rows == old(self)@.rows,
            final(self)@.pending == old(self)@.pending,
            final(self)@.asked == old(self)@.asked,
            forall|k: Seq<char>|
                #[trigger] lookup(final(self)@.known, k) == if k == ip@ {
                    Some(result@)
                } else {
                    lookup(old(self)@.known, k)
                },
    {
        let ghost v = self@.known;
        let entry = (ip.to_owned(), result);
        match self.place_known(ip) {
            Some(i) => {
                let _ = self.known.remove(i);
                proof {
                    assert(self@.known =~= v.remove(i as int));
                    lemma_removed(v, i as int);
                }
            },
            None => {},
        }
        let ghost rest = self@.known;
        self.known.push(entry);
        proof {
            assert(self@.known =~= rest.push((ip@, result@)));
            assert(self@.known.drop_last() =~= rest);
            assert forall|k: Seq<char>| k != ip@ implies #[trigger] lookup(self@.known, k) == lookup(v, k) by {
                assert(lookup(rest, k) == lookup(v, k));
            }
        }
    }

    fn answered(&mut self, ip: &str)
        requires
            old(self)@.ok(),
        ensures
            final(self)@.ok(),
            final(self)@.rows == old(self)@.rows,
            final(self)@.pending == old(self)@.pending,
            final(self)@.known == old(self)@.known,
            forall|k: Seq<char>|
                #[trigger] final(self)@.asked.contains(k) <==> k != ip@ && old(self)@.asked.contains(k),
    {
        let ghost v = self@.asked;
        match text::place_of(self.asked.as_slice(), ip) {
            Some(i) => {
                let _ = self.asked.remove(i);
                proof {
                    assert(v[i as int] == ip@);
                    assert(self@.asked =~= v.remove(i as int));
                    lemma_text_removed(v, i as int);
                }
            },
            None => {},
        }
    }
}

proof fn lemma_removed(entries: Seq<(Seq<char>, IdentifyView)>, i: int)
    requires
        0 <= i < entries.len(),
        distinct_keys(entries),
    ensures
        distinct_keys(entries.remove(i)),
        forall|j: int| 0 <= j < entries.remove(i).len() ==> (#[trigger] entries.remove(i)[j]).0 != entries[i].0,
        forall|k: Seq<char>|
            k != entries[i].0 ==> #[trigger] lookup(entries.remove(i), k) == lookup(entries, k),
{
    let rest = entries.remove(i);
    assert forall|a: int, b: int| 0 <= a < b < rest.len() implies (#[trigger] rest[a]).0 != (#[trigger] rest[b]).0 by {
        let p = if a < i { a } else { a + 1 };
        let q = if b < i { b } else { b + 1 };
        assert(rest[a] == entries[p] && rest[b] == entries[q]);
    }
    assert forall|j: int| 0 <= j < rest.len() implies (#[trigger] rest[j]).0 != entries[i].0 by {
        let p = if j < i { j } else { j + 1 };
        assert(rest[j] == entries[p]);
    }
    assert forall|k: Seq<char>| k != entries[i].0 implies #[trigger] lookup(rest, k) == lookup(entries, k) by {
        lemma_lookup(rest, k);
        lemma_lookup(entries, k);
        if lookup(entries, k) is Some {
            let p = choose|p: int| 0 <= p < entries.len() && (#[trigger] entries[p]).0 == k;
            let q = if p < i { p } else { p - 1 };
            assert(rest[q] == entries[p]);
        } else if lookup(rest, k) is Some {
            let q = choose|q: int| 0 <= q < rest.len() && (#[trigger] rest[q]).0 == k;
            let p = if q < i { q } else { q + 1 };
            assert(entries[p] == rest[q]);
        }
    }
}

proof fn lemma_text_removed(list: Seq<Seq<char>>, i: int)
    requires
        0 <= i < list.len(),
        distinct_texts(list),
    ensures
        distinct_texts(list.remove(i)),
        forall|k: Seq<char>|
            #[trigger] list.remove(i).contains(k) <==> k != list[i] && list.contains(k),
{
    let rest = list.remove(i);
    assert forall|a: int, b: int| 0 <= a < b < rest.len() implies #[trigger] rest[a] != #[trigger] rest[b] by {
        let p = if a < i { a } else { a + 1 };
        let q = if b < i { b } else { b + 1 };
        assert(rest[a] == list[p] && rest[b] == list[q]);
    }
    assert forall|k: Seq<char>| #[trigger] rest.contains(k) <==> k != list[i] && list.contains(k) by {
        if rest.contains(k) {
            let q = choose|q: int| 0 <= q < rest.len() && rest[q] == k;
            let p = if q < i { q } else { q + 1 };
            assert(list[p] == k);
        }
        if k != list[i] && list.contains(k) {
            let p = choose|p: int| 0 <= p < list.len() && list[p] == k;
            let q = if p < i { p } else { p - 1 };
            assert(rest[q] == k);
        }
    }
}

// ---------------------------------------------------------------------------
// Texts
// ---------------------------------------------------------------------------

/// What is said at the end of a scan that found `count` devices. `config` is
/// the configuration of the adapter, if it could be read: without a gateway
/// the cable may lead straight to the device.
pub fn scan_complete_status(count: usize, config: Option<&InterfaceConfig>) -> (r: String)
    ensures
        r@ == "Scan complete: "@ + text::decimal(count as nat) + " host(s) found."@ + (if config matches Some(c)
            && c@.gateway is None {
            " No gateway detected \u{2014} this may be a direct cable connection."@
        } else {
            seq![]
        }),
{
    let mut out = "Scan complete: ".to_owned();
    text::push_decimal(&mut out, count as u64);
    out.append(" host(s) found.");
    let direct = match config {
        Some(c) => c.gateway.is_none(),
        None => false,
    };
    if direct {
        out.append(" No gateway detected \u{2014} this may be a direct cable connection.");
    } else {
        assert(out@ + seq![] =~= out@);
    }
    out
}

/// The three columns that tell what a device is: its vendor, its name and the
/// services that answer.
pub fn write_identify_result(result: &IdentifyResult) -> (r: (String, String, String))
    ensures
        r.0@ == match result@.vendor {
            Some(vendor) => vendor,
            None => "(unknown)"@,
        },
        r.1@ == match result@.hostname {
            Some(hostname) => hostname,
            None => "(none)"@,
        },
        r.2@ == if result@.open_ports.len() == 0 {
            "(none open)"@
        } else {
            text::join_with(result@.open_ports, ", "@)
        },
{
    let vendor = match &result.vendor {
        Some(v) => v.clone(),
        None => "(unknown)".to_owned(),
    };
    let hostname = match &result.hostname {
        Some(h) => h.clone(),
        None => "(none)".to_owned(),
    };
    let ports = if result.open_ports.len() == 0 {
        "(none open)".to_owned()
    } else {
        text::join_strs(result.open_ports.as_slice(), ", ")
    };
    (vendor, hostname, ports)
}

fn answers(result: &IdentifyResult, service: &str) -> (r: bool)
    ensures
        r == result@.open_ports.contains(service@),
{
    let ghost v = result@.open_ports;
    let mut i: usize = 0;
    while i < result.open_ports.len()
        invariant
            v == result@.open_ports,
            i <= result.open_ports@.len(),
            forall|j: int| 0 <= j < i ==> #[trigger] v[j] != service@,
        decreases result.open_ports@.len() - i,
    {
        assert(v[i as int] == result.open_ports@[i as int]@);
        if text::str_same(result.open_ports[i], service) {
            return true;
        }
        i += 1;
    }
    false
}

/// The scheme to open a device with: the secure one where it is the only one
/// that is known to answer.
pub open spec fn scheme_of(known: Option<IdentifyView>) -> Seq<char> {
    match known {
        Some(result) if result.open_ports.contains("HTTPS"@) && !result.open_ports.contains("HTTP"@) => "https"@,
        _ => "http"@,
    }
}

/// The URL to open a device with.
pub open spec fn url_of(ip: Seq<char>, known: Option<IdentifyView>) -> Seq<char> {
    scheme_of(known) + "://"@ + (if ip.contains(':') {
        ipv6::url_host(ip)
    } else {
        ip
    })
}

/// Writes the URL to open a device with.
pub fn on_open_browser(devices: &Devices, ip: &str) -> (r: String)
    requires
        devices@.ok(),
    ensures
        r@ == url_of(ip@, lookup(devices@.known, ip@)),
{
    let secure = match devices.known(ip) {
        Some(result) => answers(result, "HTTPS") && !answers(result, "HTTP"),
        None => false,
    };
    let mut out = if secure {
        "https".to_owned()
    } else {
        "http".to_owned()
    };
    out.append("://");
    if identify::is_ipv6(ip) {
        let host = ipv6::ipv6_url_host(ip);
        out.append(host.as_str());
    } else {
        out.append(ip);
    }
    out
}

// ---------------------------------------------------------------------------
// Laws
// ---------------------------------------------------------------------------

/// A host that has been found is listed, once, and every row that was listed
/// stays where it is.
pub proof fn lemma_found(s: DevicesView, host: ScanView)
    requires
        s.ok(),
    ensures
        s.found(host).ok(),
        has_row(s.found(host).rows, host.ip),
        s.rows == s.found(host).rows.take(s.rows.len() as int),
        s.found(host).found(host) == s.found(host),
{
    let after = s.found(host);
    if !has_row(s.rows, host.ip) {
        assert(after.rows[s.rows.len() as int].ip == host.ip);
        assert forall|i: int, j: int| 0 <= i < j < after.rows.len() implies (#[trigger] after.rows[i]).ip
            != (#[trigger] after.rows[j]).ip by {
            assert(after.rows[i] == s.rows[i]);
            if j < s.rows.len() {
                assert(after.rows[j] == s.rows[j]);
            }
        }
    }
    assert(s.rows =~= after.rows.take(s.rows.len() as int));
}

/// A host whose address was not listed is listed as it was found: the new last
/// row has its address and its link-layer address. One whose address is listed
/// changes nothing. Nothing else changes either way.
pub proof fn lemma_listed_as_found(s: DevicesView, host: ScanView)
    ensures
        ({
            let after = s.found(host);
            let listed = exists|i: int| 0 <= i < s.rows.len() && (#[trigger] s.rows[i]).ip == host.ip;
            &&& listed ==> after.rows == s.rows
            &&& !listed ==> {
                &&& after.rows.len() == s.rows.len() + 1
                &&& after.rows.last().ip == host.ip
                &&& after.rows.last().mac == host.mac
                &&& forall|i: int| 0 <= i < s.rows.len() ==> #[trigger] after.rows[i] == s.rows[i]
            }
            &&& after.pending == s.pending
            &&& after.known == s.known
            &&& after.asked == s.asked
        }),
{
}

/// The list after these hosts have answered, one after the other.
pub open spec fn found_all(s: DevicesView, hosts: Seq<ScanView>) -> DevicesView
    decreases hosts.len(),
{
    if hosts.len() == 0 {
        s
    } else {
        found_all(s, hosts.drop_last()).found(hosts.last())
    }
}

/// A host is the first of those with its address.
pub open spec fn is_first(hosts: Seq<ScanView>, i: int) -> bool {
    0 <= i < hosts.len() && forall|j: int| 0 <= j < i ==> (#[trigger] hosts[j]).ip != hosts[i].ip
}

/// A scan lists every host that answered, and nothing else: each row is a host
/// as it was first found, with its address and its link-layer address, each
/// such host has a row, and the rows stand in the order in which they answered.
pub proof fn lemma_scan_lists(s: DevicesView, hosts: Seq<ScanView>)
    ensures
        ({
            let after = found_all(s.scanning(), hosts);
            &&& forall|r: int|
                0 <= r < after.rows.len() ==> exists|i: int| #[trigger] is_first(hosts, i) && hosts[i] == #[trigger] after.rows[r]
            &&& forall|i: int| #[trigger] is_first(hosts, i) ==> after.rows.contains(hosts[i])
            &&& distinct_rows(after.rows)
            &&& forall|p: int, q: int, i: int, j: int|
                0 <= p < q < after.rows.len() && #[trigger] is_first(hosts, i) && #[trigger] is_first(hosts, j) && hosts[i]
                    == #[trigger] after.rows[p] && hosts[j] == #[trigger] after.rows[q] ==> i < j
            &&& after.pending
            &&& after.known == s.known
            &&& after.asked == s.asked
        }),
    decreases hosts.len(),
{
    let after = found_all(s.scanning(), hosts);
    if hosts.len() > 0 {
        let init = hosts.drop_last();
        let n = hosts.len() - 1;
        let host = hosts.last();
        let before = found_all(s.scanning(), init);
        lemma_scan_lists(s, init);
        assert forall|i: int| 0 <= i < n implies is_first(init, i) == #[trigger] is_first(hosts, i) by {
            assert(hosts[i] == init[i]);
            if is_first(init, i) {
                assert forall|j: int| 0 <= j < i implies (#[trigger] hosts[j]).ip != hosts[i].ip by {
                    assert(init[j] == hosts[j]);
                }
            }
            if is_first(hosts, i) {
                assert forall|j: int| 0 <= j < i implies (#[trigger] init[j]).ip != init[i].ip by {
                    assert(init[j] == hosts[j]);
                }
            }
        }
        assert(has_row(before.rows, host.ip) <==> !is_first(hosts, n)) by {
            if has_row(before.rows, host.ip) {
                let r = choose|r: int| 0 <= r < before.rows.len() && (#[trigger] before.rows[r]).ip == host.ip;
                let i = choose|i: int| #[trigger] is_first(init, i) && init[i] == before.rows[r];
                assert(hosts[i] == init[i] && hosts[i].ip == host.ip);
            } else if !is_first(hosts, n) {
                let j = choose|j: int| 0 <= j < n && (#[trigger] hosts[j]).ip == host.ip;
                let i = lemma_first_of(init, j);
                assert(before.rows.contains(init[i]));
                let r = choose|r: int| 0 <= r < before.rows.len() && before.rows[r] == init[i];
                assert(before.rows[r].ip == host.ip);
            }
        }
        assert forall|r: int| 0 <= r < after.rows.len() implies exists|i: int| #[trigger]
            is_first(hosts, i) && hosts[i] == #[trigger] after.rows[r] by {
            if r < before.rows.len() {
                assert(after.rows[r] == before.rows[r]);
                let i = choose|i: int| #[trigger] is_first(init, i) && init[i] == before.rows[r];
                assert(is_first(hosts, i) && hosts[i] == init[i]);
            } else {
                assert(is_first(hosts, n));
            }
        }
        assert forall|i: int| #[trigger] is_first(hosts, i) implies after.rows.contains(hosts[i]) by {
            if i < n {
                assert(is_first(init, i) && hosts[i] == init[i]);
                let r = choose|r: int| 0 <= r < before.rows.len() && before.rows[r] == init[i];
                assert(after.rows[r] == hosts[i]);
            } else {
                assert(after.rows[before.rows.len() as int] == hosts[i]);
            }
        }
        assert forall|a: int, b: int| 0 <= a < b < after.rows.len() implies (#[trigger] after.rows[a]).ip
            != (#[trigger] after.rows[b]).ip by {
            assert(after.rows[a] == before.rows[a]);
            if b < before.rows.len() {
                assert(after.rows[b] == before.rows[b]);
            }
        }
        assert forall|p: int, q: int, i: int, j: int|
            0 <= p < q < after.rows.len() && #[trigger] is_first(hosts, i) && #[trigger] is_first(hosts, j) && hosts[i]
                == #[trigger] after.rows[p] && hosts[j] == #[trigger] after.rows[q] implies i < j by {
            assert(after.rows[p] == before.rows[p]);
            if i == n {
                assert(has_row(before.rows, host.ip));
            }
            if j < n {
                if q < before.rows.len() {
                    assert(after.rows[q] == before.rows[q]);
                    assert(is_first(init, i) && is_first(init, j));
                    assert(hosts[i] == init[i] && hosts[j] == init[j]);
                } else {
                    assert(hosts[j].ip == host.ip);
                    assert(is_first(hosts, n));
                }
            }
        }
    }
}

proof fn lemma_first_of(hosts: Seq<ScanView>, j: int) -> (i: int)
    requires
        0 <= j < hosts.len(),
    ensures
        is_first(hosts, i),
        hosts[i].ip == hosts[j].ip,
    decreases j,
{
    if is_first(hosts, j) {
        j
    } else {
        let k = choose|k: int| 0 <= k < j && (#[trigger] hosts[k]).ip == hosts[j].ip;
        lemma_first_of(hosts, k)
    }
}

/// A neighbour is listed under its address, with its zone, and with its
/// link-layer address in upper case; one without is listed without.
pub proof fn lemma_neighbor_listed(n: NeighborView)
    ensures
        neighbor_row(n).ip == n.address_with_zone,
        match n.mac {
            Some(m) => {
                &&& neighbor_row(n).mac.len() == m.len()
                &&& forall|i: int| 0 <= i < m.len() ==> #[trigger] neighbor_row(n).mac[i] == text::upper(m[i])
            },
            None => neighbor_row(n).mac.len() == 0,
        },
{
}

/// A device that is being identified is not asked for again, whichever of its
/// rows is selected, until it is known what it is; and then it is not either.
pub proof fn lemma_asked_once(s: DevicesView, row: int, again: int, result: IdentifyView, after: DevicesView)
    requires
        s.wants(row),
        0 <= again < s.rows.len(),
        s.rows[again].ip == s.rows[row].ip,
        s.asking(row).told(s.rows[row].ip, result, after),
    ensures
        !s.asking(row).wants(again),
        !after.wants(again),
        lookup(after.known, s.rows[row].ip) == Some(result),
        !after.asked.contains(s.rows[row].ip),
{
    let ip = s.rows[row].ip;
    assert(s.asking(row).asked[s.asked.len() as int] == ip);
    assert(lookup(after.known, ip) == Some(result));
}

/// An answer for one device leaves what is known of every other, and what is
/// asked for every other, as it was: no answer is lost to another.
pub proof fn lemma_answers_apart(s: DevicesView, ip: Seq<char>, result: IdentifyView, after: DevicesView, other: Seq<char>)
    requires
        s.told(ip, result, after),
        other != ip,
    ensures
        lookup(after.known, other) == lookup(s.known, other),
        after.asked.contains(other) <==> s.asked.contains(other),
{
}

/// A row is still to be identified exactly where it is there, nothing is known
/// of its address, and it is not being identified. To ask for it changes nothing
/// else, and a scan that begins empties the list and leaves what is known.
pub proof fn lemma_wanted(s: DevicesView, row: int)
    ensures
        s.wants(row) <==> {
            &&& 0 <= row < s.rows.len()
            &&& forall|i: int| 0 <= i < s.known.len() ==> (#[trigger] s.known[i]).0 != s.rows[row].ip
            &&& forall|i: int| 0 <= i < s.asked.len() ==> #[trigger] s.asked[i] != s.rows[row].ip
        },
        0 <= row < s.rows.len() ==> s.asking(row) == (DevicesView { asked: s.asked.push(s.rows[row].ip), ..s }),
        s.scanning().rows.len() == 0 && s.scanning().pending,
        s.scanning().known == s.known && s.scanning().asked == s.asked,
{
    if 0 <= row < s.rows.len() {
        lemma_lookup(s.known, s.rows[row].ip);
    }
}

/// What is known of an address is what was last learnt of it.
pub proof fn lemma_known(entries: Seq<(Seq<char>, IdentifyView)>, ip: Seq<char>, result: IdentifyView, other: Seq<char>)
    ensures
        lookup(entries.push((ip, result)), ip) == Some(result),
        other != ip ==> lookup(entries.push((ip, result)), other) == lookup(entries, other),
        lookup(seq![], ip) is None,
{
    assert(entries.push((ip, result)).drop_last() =~= entries);
}

/// A device is opened with the secure scheme exactly where HTTPS answered and
/// HTTP did not; an IPv6 address stands in brackets.
pub proof fn lemma_url(ip: Seq<char>, known: Option<IdentifyView>)
    ensures
        ({
            let secure = known is Some && known->0.open_ports.contains("HTTPS"@) && !known->0.open_ports.contains(
                "HTTP"@,
            );
            let host = if ip.contains(':') {
                ipv6::url_host(ip)
            } else {
                ip
            };
            url_of(ip, known) == if secure {
                "https://"@ + host
            } else {
                "http://"@ + host
            }
        }),
{
    reveal_strlit("https");
    reveal_strlit("http");
    reveal_strlit("://");
    reveal_strlit("https://");
    reveal_strlit("http://");
    assert("https"@ + "://"@ =~= "https://"@);
    assert("http"@ + "://"@ =~= "http://"@);
}

} // verus!
