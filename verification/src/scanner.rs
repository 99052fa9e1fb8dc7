//! Finding the hosts of a subnet: the addresses to ask, what a reply means,
//! and what the ARP table of the system already knows.
use crate::process::Outcome;
use crate::text;
use crate::validate;
use vstd::prelude::*;

verus! {

/// A host that answered: its address and its link-layer address.
#[derive(Debug, Clone, PartialEq)]
pub struct ScanResult {
    pub ip: String,
    pub mac: String,
}

/// The contents of a `ScanResult`.
pub struct ScanView {
    pub ip: Seq<char>,
    pub mac: Seq<char>,
}

impl View for ScanResult {
    type V = ScanView;

    open spec fn view(&self) -> ScanView {
        ScanView { ip: self.ip@, mac: self.mac@ }
    }
}

/// The contents of each of a list of results.
pub open spec fn scan_views(results: Seq<ScanResult>) -> Seq<ScanView> {
    results.map_values(|r: ScanResult| r@)
}

// ---------------------------------------------------------------------------
// Link-layer addresses
// ---------------------------------------------------------------------------

/// Bytes as upper-case hexadecimal pairs with dashes between them.
pub open spec fn mac_text(mac: Seq<u8>) -> Seq<char>
    decreases mac.len(),
{
    if mac.len() == 0 {
        seq![]
    } else if mac.len() == 1 {
        text::hex_byte(mac[0])
    } else {
        mac_text(mac.drop_last()).push('-') + text::hex_byte(mac.last())
    }
}

/// Writes a link-layer address, such as `02-0A-FF-00-01-BC`.
pub fn format_mac(mac: &[u8; 6]) -> (r: String)
    ensures
        r@ == mac_text(mac@),
{
    let mut out = String::new();
    let mut i: usize = 0;
    assert(mac@.take(0) =~= seq![]);
    while i < 6
        invariant
            i <= 6,
            out@ == mac_text(mac@.take(i as int)),
        decreases 6 - i,
    {
        assert(mac@.take(i + 1).drop_last() =~= mac@.take(i as int));
        if i > 0 {
            out.push('-');
        }
        text::push_hex_byte(&mut out, mac[i]);
        assert(i == 0 ==> out@ =~= text::hex_byte(mac@[0]));
        i += 1;
    }
    assert(mac@.take(6) =~= mac@);
    out
}

/// What the reply to an address resolution request means: `code` is zero for
/// success, and `len` is the number of bytes of the address that came back.
pub open spec fn arp_answer(code: u32, mac: Seq<u8>, len: u32) -> Option<Seq<char>> {
    if code == 0 && len == 6 {
        Some(mac_text(mac))
    } else {
        None
    }
}

/// The link-layer address in the reply to an address resolution request; none
/// where the host did not answer with one of six bytes.
pub fn arp_resolve(code: u32, mac: &[u8; 6], len: u32) -> (r: Option<String>)
    ensures
        text::opt_view(r) == arp_answer(code, mac@, len),
{
    if code == 0 && len == 6 {
        Some(format_mac(mac))
    } else {
        None
    }
}

// ---------------------------------------------------------------------------
// The ARP table
// ---------------------------------------------------------------------------

/// The address and link-layer address that a line of the ARP table holds:
/// three words or more, of which the first begins with a digit and the second
/// is not the broadcast address; no heading.
pub open spec fn arp_row(line: Seq<char>) -> Option<(Seq<char>, Seq<char>)> {
    let t = text::trim_of(line);
    let words = text::words_of(t);
    if t.len() == 0 || text::starts(t, "Interface:"@) || text::starts(t, "Internet Address"@) {
        None
    } else if words.len() < 3 || words[0].len() == 0 || !text::is_digit(words[0][0]) {
        None
    } else if text::same_ignoring_case(words[1], "ff-ff-ff-ff-ff-ff"@) {
        None
    } else {
        Some((words[0], words[1]))
    }
}

/// The rows that the lines hold, in their order.
pub open spec fn arp_rows(lines: Seq<Seq<char>>) -> Seq<(Seq<char>, Seq<char>)>
    decreases lines.len(),
{
    if lines.len() == 0 {
        seq![]
    } else {
        match arp_row(lines.last()) {
            Some(row) => arp_rows(lines.drop_last()).push(row),
            None => arp_rows(lines.drop_last()),
        }
    }
}

/// The rows of the whole ARP table, over all interfaces.
pub open spec fn arp_table(s: Seq<char>) -> Seq<(Seq<char>, Seq<char>)> {
    arp_rows(text::lines_of(s))
}

/// The contents of each of a list of pairs of strings.
pub open spec fn pair_views(pairs: Seq<(String, String)>) -> Seq<(Seq<char>, Seq<char>)> {
    pairs.map_values(|p: (String, String)| (p.0@, p.1@))
}

fn parse_arp_row(line: &[char]) -> (r: Option<(String, String)>)
    ensures
        match r {
            Some(p) => arp_row(line@) == Some((p.0@, p.1@)),
            None => arp_row(line@) is None,
        },
{
    let t = text::trim(line);
    let interface = text::chars_of("Interface:");
    let heading = text::chars_of("Internet Address");
    if t.len() == 0 || text::starts_with(t, interface.as_slice()) || text::starts_with(t, heading.as_slice()) {
        return None;
    }
    let words = text::words(t);
    let ghost v = text::words_of(t@);
    assert(v.len() == words@.len());
    if words.len() < 3 {
        return None;
    }
    assert(words@[0]@ == v[0] && words@[1]@ == v[1]);
    if words[0].len() == 0 || !text::digit(words[0][0]) {
        return None;
    }
    let broadcast = text::chars_of("ff-ff-ff-ff-ff-ff");
    if text::same_nocase(words[1], broadcast.as_slice()) {
        return None;
    }
    Some((text::string_of(words[0]), text::string_of(words[1])))
}

/// Reads what `arp -a` prints, possibly of several interfaces, into one list
/// of addresses and link-layer addresses, without the broadcast entries.
pub fn parse_arp_table(text: &str) -> (r: Vec<(String, String)>)
    ensures
        pair_views(r@) == arp_table(text@),
{
    let all = text::chars_of(text);
    let lines = text::lines(all.as_slice());
    let ghost v = text::lines_of(text@);
    assert(v.len() == lines@.len());
    let mut out: Vec<(String, String)> = Vec::new();
    let mut i: usize = 0;
    assert(pair_views(out@) =~= arp_rows(v.take(0)));
    while i < lines.len()
        invariant
            v == text::views(lines@),
            v.len() == lines@.len(),
            i <= lines@.len(),
            pair_views(out@) == arp_rows(v.take(i as int)),
        decreases lines@.len() - i,
    {
        let ghost before = out@;
        assert(lines@[i as int]@ == v[i as int]);
        assert(v.take(i + 1).drop_last() =~= v.take(i as int));
        match parse_arp_row(lines[i]) {
            Some(p) => {
                out.push(p);
                assert(pair_views(out@) =~= pair_views(before).push((p.0@, p.1@)));
            },
            None => {},
        }
        i += 1;
    }
    assert(v.take(i as int) =~= v);
    out
}

/// The ARP table, from what came of `arp -a`: what it printed, unless it could
/// not be started.
pub fn run_arp_a(outcome: Outcome) -> (r: Result<String, String>)
    ensures
        match outcome {
            Outcome::NotStarted(e) => r matches Err(m) && m@ == "failed to launch arp: "@ + e@,
            Outcome::Ended { success, stdout, stderr } => r matches Ok(s) && s@ == stdout@,
        },
{
    match outcome {
        Outcome::NotStarted(e) => {
            let mut message = "failed to launch arp: ".to_owned();
            message.append(e.as_str());
            Err(message)
        },
        Outcome::Ended { success, stdout, stderr } => Ok(stdout),
    }
}

// ---------------------------------------------------------------------------
// Sweeping a subnet
// ---------------------------------------------------------------------------

/// The number of hosts that are asked at the same time.
pub const WORKERS: usize = 48;

/// The first three bytes of a subnet, from a text such as `192.168.1`.
pub open spec fn base_octets(s: Seq<char>) -> Option<Seq<u8>> {
    let parts = text::split_on(s, '.');
    if parts.len() == 3 && text::number(parts[0], 10, 255) is Some && text::number(parts[1], 10, 255) is Some
        && text::number(parts[2], 10, 255) is Some {
        Some(
            seq![
                text::number(parts[0], 10, 255)->0 as u8,
                text::number(parts[1], 10, 255)->0 as u8,
                text::number(parts[2], 10, 255)->0 as u8,
            ],
        )
    } else {
        None
    }
}

/// Reads the first three bytes of a subnet.
pub fn parse_base(base: &str) -> (r: Option<[u8; 3]>)
    ensures
        match r {
            Some(o) => base_octets(base@) == Some(o@),
            None => base_octets(base@) is None,
        },
{
    let s = text::chars_of(base);
    let parts = text::split(s.as_slice(), '.');
    let ghost v = text::split_on(base@, '.');
    assert(v.len() == parts@.len());
    if parts.len() != 3 {
        return None;
    }
    assert(parts@[0]@ == v[0] && parts@[1]@ == v[1] && parts@[2]@ == v[2]);
    match (
        text::parse_number(parts[0], 10, 255),
        text::parse_number(parts[1], 10, 255),
        text::parse_number(parts[2], 10, 255),
    ) {
        (Some(a), Some(b), Some(c)) => {
            let o: [u8; 3] = [a as u8, b as u8, c as u8];
            assert(o@ =~= base_octets(base@)->0);
            Some(o)
        },
        _ => None,
    }
}

/// The address of host number `d` in the subnet.
pub open spec fn host_address(base: Seq<u8>, d: int) -> Seq<u8> {
    seq![base[0], base[1], base[2], d as u8]
}

/// The hosts of batch number `k` of a subnet.
pub open spec fn batch_hosts(base: Seq<u8>, k: int) -> Seq<Seq<u8>> {
    Seq::new(
        if k < 5 {
            48
        } else {
            14
        },
        |j: int| host_address(base, 48 * k + j + 1),
    )
}

/// The batches of a subnet, in the order in which they are asked.
pub open spec fn all_batches(base: Seq<u8>) -> Seq<Seq<Seq<u8>>> {
    Seq::new(6, |k: int| batch_hosts(base, k))
}

/// The contents of each host of a batch.
pub open spec fn host_views(batch: Seq<[u8; 4]>) -> Seq<Seq<u8>> {
    batch.map_values(|h: [u8; 4]| h@)
}

/// The contents of each of a list of batches.
pub open spec fn batch_views(batches: Seq<Vec<[u8; 4]>>) -> Seq<Seq<Seq<u8>>> {
    batches.map_values(|b: Vec<[u8; 4]>| host_views(b@))
}

/// The hosts of a subnet in the order in which they are asked, in batches that
/// are asked at the same time: the hosts 1 to 254, 48 to a batch.
pub fn sweep_batches(base: &str) -> (r: Option<Vec<Vec<[u8; 4]>>>)
    ensures
        r is Some <==> base_octets(base@) is Some,
        r matches Some(batches) ==> batch_views(batches@) == all_batches(base_octets(base@)->0),
{
    let o = match parse_base(base) {
        Some(o) => o,
        None => {
            return None;
        },
    };
    let ghost b = o@;
    let mut batches: Vec<Vec<[u8; 4]>> = Vec::new();
    let mut next: usize = 1;
    let mut k: usize = 0;
    while k < 6
        invariant
            b == o@,
            k <= 6,
            next == if k < 6 { 48 * k + 1 } else { 255 },
            batches@.len() == k,
            forall|m: int|
                0 <= m < k ==> (#[trigger] batches@[m])@.len() == if m < 5 {
                    48int
                } else {
                    14
                },
            forall|m: int, j: int|
                0 <= m < k && 0 <= j < batches@[m]@.len() ==> (#[trigger] batches@[m]@[j])@ == host_address(
                    b,
                    48 * m + j + 1,
                ),
        decreases 6 - k,
    {
        let mut batch: Vec<[u8; 4]> = Vec::new();
        while batch.len() < WORKERS && next <= 254
            invariant
                b == o@,
                k < 6,
                next == 48 * k + 1 + batch@.len(),
                batch@.len() <= 48,
                next <= 255,
                forall|j: int| 0 <= j < batch@.len() ==> (#[trigger] batch@[j])@ == host_address(b, 48 * k + j + 1),
            decreases 255 - next,
        {
            let host: [u8; 4] = [o[0], o[1], o[2], next as u8];
            assert(host@ =~= host_address(b, next as int));
            batch.push(host);
            next += 1;
        }
        batches.push(batch);
        k += 1;
    }
    proof {
        let v = batch_views(batches@);
        assert forall|m: int| 0 <= m < 6 implies v[m] == all_batches(b)[m] by {
            assert(v[m] =~= batch_hosts(b, m));
        }
        assert(v =~= all_batches(b));
    }
    Some(batches)
}

/// What is to be done next in a sweep.
#[derive(Debug, Clone, PartialEq)]
pub enum SweepStep {
    /// Ask these hosts, all at the same time.
    Ask(Vec<[u8; 4]>),
    /// Tell the hosts that the ARP table already knows.
    TellCached,
    /// Nothing: the sweep is over.
    Done,
}

/// The contents of a `SweepStep`.
pub enum SweepStepView {
    Ask(Seq<Seq<u8>>),
    TellCached,
    Done,
}

impl View for SweepStep {
    type V = SweepStepView;

    open spec fn view(&self) -> SweepStepView {
        match self {
            SweepStep::Ask(hosts) => SweepStepView::Ask(host_views(hosts@)),
            SweepStep::TellCached => SweepStepView::TellCached,
            SweepStep::Done => SweepStepView::Done,
        }
    }
}

/// How far a sweep has come.
pub struct SweepView {
    /// The batches that have not been asked.
    pub left: Seq<Seq<Seq<u8>>>,
    /// The hosts that the ARP table knows have been told.
    pub told: bool,
}

impl SweepView {
    /// Nothing has been done yet.
    pub open spec fn begun(batches: Seq<Seq<Seq<u8>>>) -> SweepView {
        SweepView { left: batches, told: false }
    }

    /// The sweep after its next step, and that step: the next batch, unless
    /// the sweep is cancelled or none is left; then, once, what the ARP table
    /// knows.
    pub open spec fn stepped(self, cancelled: bool) -> (SweepView, SweepStepView) {
        if self.told {
            (self, SweepStepView::Done)
        } else if cancelled || self.left.len() == 0 {
            (SweepView { told: true, ..self }, SweepStepView::TellCached)
        } else {
            (SweepView { left: self.left.skip(1), ..self }, SweepStepView::Ask(self.left[0]))
        }
    }
}

/// A sweep of one subnet.
pub struct Sweep {
    left: Vec<Vec<[u8; 4]>>,
    told: bool,
}

impl View for Sweep {
    type V = SweepView;

    closed spec fn view(&self) -> SweepView {
        SweepView { left: batch_views(self.left@), told: self.told }
    }
}

impl Sweep {
    /// Begins to sweep a subnet; there is nothing to sweep where `base` names
    /// none.
    pub fn new(base: &str) -> (r: Option<Sweep>)
        ensures
            match base_octets(base@) {
                Some(octets) => r matches Some(sweep) && sweep@ == SweepView::begun(all_batches(octets)),
                None => r is None,
            },
    {
        match sweep_batches(base) {
            Some(batches) => Some(Sweep { left: batches, told: false }),
            None => None,
        }
    }

    /// Takes the next step; `cancelled` tells whether the user has asked to
    /// stop.
    pub fn next(&mut self, cancelled: bool) -> (r: SweepStep)
        ensures
            (final(self)@, r@) == old(self)@.stepped(cancelled),
    {
        if self.told {
            return SweepStep::Done;
        }
        assert(self@.left.len() == self.left@.len());
        if cancelled || self.left.len() == 0 {
            self.told = true;
            return SweepStep::TellCached;
        }
        let ghost before = self.left@;
        let batch = self.left.remove(0);
        proof {
            assert(batch_views(before)[0] == host_views(batch@));
            assert(batch_views(self.left@) =~= batch_views(before).skip(1));
        }
        SweepStep::Ask(batch)
    }
}

/// Writes an address in decimal with dots.
pub fn host_ip(octets: [u8; 4]) -> (r: String)
    ensures
        r@ == validate::dotted(octets@),
{
    let mut out = String::new();
    text::push_decimal(&mut out, octets[0] as u64);
    out.push('.');
    text::push_decimal(&mut out, octets[1] as u64);
    out.push('.');
    text::push_decimal(&mut out, octets[2] as u64);
    out.push('.');
    text::push_decimal(&mut out, octets[3] as u64);
    assert(out@ =~= validate::dotted(octets@));
    out
}

/// The rows whose address begins with `prefix`, in their order.
pub open spec fn rows_under(rows: Seq<(Seq<char>, Seq<char>)>, prefix: Seq<char>) -> Seq<ScanView>
    decreases rows.len(),
{
    if rows.len() == 0 {
        seq![]
    } else if text::starts(rows.last().0, prefix) {
        rows_under(rows.drop_last(), prefix).push(ScanView { ip: rows.last().0, mac: rows.last().1 })
    } else {
        rows_under(rows.drop_last(), prefix)
    }
}

/// The hosts of the subnet `base` that the ARP table already knows.
pub fn cached_hosts(arp_text: &str, base: &str) -> (r: Vec<ScanResult>)
    ensures
        scan_views(r@) == rows_under(arp_table(arp_text@), base@.push('.')),
{
    let mut prefix = text::chars_of(base);
    prefix.push('.');
    let rows = parse_arp_table(arp_text);
    let ghost v = arp_table(arp_text@);
    assert(v.len() == rows@.len());
    let mut out: Vec<ScanResult> = Vec::new();
    let mut i: usize = 0;
    assert(scan_views(out@) =~= rows_under(v.take(0), prefix@));
    while i < rows.len()
        invariant
            v == pair_views(rows@),
            v.len() == rows@.len(),
            i <= rows@.len(),
            scan_views(out@) == rows_under(v.take(i as int), prefix@),
        decreases rows@.len() - i,
    {
        let ghost before = out@;
        assert(v[i as int] == (rows@[i as int].0@, rows@[i as int].1@));
        assert(v.take(i + 1).drop_last() =~= v.take(i as int));
        let ip = text::chars_of(rows[i].0.as_str());
        if text::starts_with(ip.as_slice(), prefix.as_slice()) {
            let hit = ScanResult { ip: rows[i].0.clone(), mac: rows[i].1.clone() };
            out.push(hit);
            assert(scan_views(out@) =~= scan_views(before).push(hit@));
        }
        i += 1;
    }
    assert(v.take(i as int) =~= v);
    out
}

// ---------------------------------------------------------------------------
// Laws
// ---------------------------------------------------------------------------

/// A sweep and its steps, where `cancelled[i]` tells whether it is cancelled
/// before step number `i`.
pub open spec fn swept(batches: Seq<Seq<Seq<u8>>>, cancelled: Seq<bool>) -> (SweepView, Seq<SweepStepView>)
    decreases cancelled.len(),
{
    if cancelled.len() == 0 {
        (SweepView::begun(batches), seq![])
    } else {
        let (before, steps) = swept(batches, cancelled.drop_last());
        let (after, step) = before.stepped(cancelled.last());
        (after, steps.push(step))
    }
}

/// How many of `n` batches are asked: all, or those before the sweep is
/// cancelled.
pub open spec fn asked_of(n: nat, cancelled: Seq<bool>) -> nat
    decreases cancelled.len(),
{
    if cancelled.len() == 0 {
        n
    } else {
        let last = (cancelled.len() - 1) as nat;
        let k = asked_of(n, cancelled.drop_last());
        if last < k && cancelled.last() {
            last
        } else {
            k
        }
    }
}

/// A sweep asks its batches in their order until it is cancelled, and none
/// after that. The hosts that the ARP table knows are told once, after the
/// last batch that is asked, also where the sweep is cancelled; then it is
/// over.
pub proof fn lemma_swept(batches: Seq<Seq<Seq<u8>>>, cancelled: Seq<bool>)
    ensures
        ({
            let k = asked_of(batches.len(), cancelled);
            let (sweep, steps) = swept(batches, cancelled);
            &&& k <= batches.len()
            &&& forall|i: int| 0 <= i < k && i < cancelled.len() ==> !#[trigger] cancelled[i]
            &&& k < batches.len() ==> k < cancelled.len() && cancelled[k as int]
            &&& steps.len() == cancelled.len()
            &&& forall|i: int|
                0 <= i < steps.len() ==> #[trigger] steps[i] == if i < k {
                    SweepStepView::Ask(batches[i])
                } else if i == k {
                    SweepStepView::TellCached
                } else {
                    SweepStepView::Done
                }
            &&& sweep.told == (cancelled.len() > k)
            &&& sweep.left == batches.skip(
                if cancelled.len() < k {
                    cancelled.len() as int
                } else {
                    k as int
                },
            )
        }),
    decreases cancelled.len(),
{
    let n = batches.len();
    if cancelled.len() == 0 {
        assert(batches.skip(0) =~= batches);
    } else {
        let init = cancelled.drop_last();
        let last = cancelled.len() - 1;
        lemma_swept(batches, init);
        let k0 = asked_of(n, init);
        let k = asked_of(n, cancelled);
        let (before, steps0) = swept(batches, init);
        let (after, steps) = swept(batches, cancelled);
        assert forall|i: int| 0 <= i < k && i < cancelled.len() implies !#[trigger] cancelled[i] by {
            if i < last {
                assert(init[i] == cancelled[i]);
            }
        }
        if k0 < n {
            assert(init[k0 as int] == cancelled[k0 as int]);
        }
        if last < k0 {
            assert(before.left == batches.skip(last));
            assert(batches.skip(last).skip(1) =~= batches.skip(last + 1));
        }
        assert forall|i: int| 0 <= i < steps.len() implies #[trigger] steps[i] == if i < k {
            SweepStepView::Ask(batches[i])
        } else if i == k {
            SweepStepView::TellCached
        } else {
            SweepStepView::Done
        } by {
            if i < last {
                assert(steps[i] == steps0[i]);
            }
        }
    }
}

/// No row of the ARP table is a broadcast entry, and the address of each
/// begins with a digit.
pub proof fn lemma_arp_rows(lines: Seq<Seq<char>>, k: int)
    requires
        0 <= k < arp_rows(lines).len(),
    ensures
        !text::same_ignoring_case(arp_rows(lines)[k].1, "ff-ff-ff-ff-ff-ff"@),
        arp_rows(lines)[k].0.len() > 0,
        text::is_digit(arp_rows(lines)[k].0[0]),
    decreases lines.len(),
{
    let init = arp_rows(lines.drop_last());
    if k < init.len() {
        lemma_arp_rows(lines.drop_last(), k);
        assert(arp_rows(lines)[k] == init[k]);
    }
}

/// Every host that is taken from the ARP table lies in the subnet, and is a
/// row of the table.
pub proof fn lemma_rows_under(rows: Seq<(Seq<char>, Seq<char>)>, prefix: Seq<char>, k: int)
    requires
        0 <= k < rows_under(rows, prefix).len(),
    ensures
        text::starts(rows_under(rows, prefix)[k].ip, prefix),
        rows.contains((rows_under(rows, prefix)[k].ip, rows_under(rows, prefix)[k].mac)),
    decreases rows.len(),
{
    let some = rows_under(rows.drop_last(), prefix);
    let host = rows_under(rows, prefix)[k];
    if k < some.len() {
        lemma_rows_under(rows.drop_last(), prefix, k);
        assert(host == some[k]);
        let init = rows.drop_last();
        let i = choose|i: int| 0 <= i < init.len() && init[i] == (host.ip, host.mac);
        assert(rows[i] == (host.ip, host.mac));
    } else {
        assert(rows[rows.len() - 1] == (host.ip, host.mac));
    }
}

/// A link-layer address is written as two hexadecimal digits to a byte, in
/// upper case, with dashes between the bytes.
pub proof fn lemma_mac_written(mac: Seq<u8>, i: int)
    requires
        0 <= i < mac.len(),
    ensures
        mac_text(mac).len() == 3 * mac.len() - 1,
        text::digit_of(mac_text(mac)[3 * i]) == mac[i] / 16,
        text::digit_of(mac_text(mac)[3 * i + 1]) == mac[i] % 16,
        !('a' <= mac_text(mac)[3 * i] <= 'z') && !('a' <= mac_text(mac)[3 * i + 1] <= 'z'),
        i + 1 < mac.len() ==> mac_text(mac)[3 * i + 2] == '-',
    decreases mac.len(),
{
    let last = mac.len() - 1;
    let h = text::hex_byte(mac[i]);
    if mac.len() > 1 {
        let init = mac.drop_last();
        let before = mac_text(init);
        if i < last {
            lemma_mac_written(init, i);
            assert(mac_text(mac)[3 * i] == before[3 * i]);
            assert(mac_text(mac)[3 * i + 1] == before[3 * i + 1]);
            if i + 1 < last {
                assert(mac_text(mac)[3 * i + 2] == before[3 * i + 2]);
            }
        } else {
            lemma_mac_written(init, last - 1);
            assert(mac_text(mac)[3 * i] == h[0]);
            assert(mac_text(mac)[3 * i + 1] == h[1]);
        }
    }
}

/// A host has answered exactly where the request succeeded and an address of
/// six bytes came back, and that address is what is told.
pub proof fn lemma_answered(code: u32, mac: Seq<u8>, len: u32)
    ensures
        arp_answer(code, mac, len) == if code == 0 && len == 6 {
            Some(mac_text(mac))
        } else {
            None
        },
{
}

/// A line of the ARP table holds a row exactly where it has three words or more,
/// the first begins with a digit and the second is not the broadcast address:
/// the first word is the address and the second the link-layer address.
pub proof fn lemma_arp_line(line: Seq<char>)
    ensures
        ({
            let words = text::words_of(text::trim_of(line));
            arp_row(line) == if words.len() >= 3 && words[0].len() > 0 && '0' <= words[0][0] <= '9'
                && !text::same_ignoring_case(words[1], "ff-ff-ff-ff-ff-ff"@) {
                Some((words[0], words[1]))
            } else {
                None
            }
        }),
{
    let t = text::trim_of(line);
    text::lemma_trimmed_ends(line);
    if t.len() > 0 {
        text::lemma_word_len_bound(t);
        assert(text::words_of(t)[0] == t.take(text::word_len(t) as int));
        assert(text::words_of(t)[0][0] == t[0]);
    }
    if text::starts(t, "Interface:"@) {
        reveal_strlit("Interface:");
        assert(t.subrange(0, 10)[0] == t[0]);
    }
    if text::starts(t, "Internet Address"@) {
        reveal_strlit("Internet Address");
        assert(t.subrange(0, 16)[0] == t[0]);
    }
}

/// One line more of the ARP table adds the row that it holds, last, and nothing
/// where it holds none.
pub proof fn lemma_arp_one_more(lines: Seq<Seq<char>>, line: Seq<char>)
    ensures
        arp_rows(lines.push(line)) == match arp_row(line) {
            Some(row) => arp_rows(lines).push(row),
            None => arp_rows(lines),
        },
        arp_rows(seq![]).len() == 0,
{
    assert(lines.push(line).drop_last() =~= lines);
}

/// One row more is one host more of the subnet, with the address and the
/// link-layer address of the row, exactly where the address begins with that of
/// the subnet.
pub proof fn lemma_under_one_more(rows: Seq<(Seq<char>, Seq<char>)>, row: (Seq<char>, Seq<char>), prefix: Seq<char>)
    ensures
        rows_under(rows.push(row), prefix) == if prefix.len() <= row.0.len() && row.0.take(prefix.len() as int) == prefix {
            rows_under(rows, prefix).push(ScanView { ip: row.0, mac: row.1 })
        } else {
            rows_under(rows, prefix)
        },
        rows_under(seq![], prefix).len() == 0,
{
    assert(rows.push(row).drop_last() =~= rows);
    if prefix.len() <= row.0.len() {
        assert(row.0.subrange(0, prefix.len() as int) =~= row.0.take(prefix.len() as int));
    }
}

/// A sweep asks every host of the subnet from 1 to 254 and no other, each once
/// and in order, no more than 48 at the same time.
pub proof fn lemma_every_host_asked(base: Seq<u8>, d: int)
    requires
        1 <= d <= 254,
    ensures
        ({
            let batches = all_batches(base);
            &&& batches.len() == 6
            &&& forall|k: int| 0 <= k < 6 ==> (#[trigger] batches[k]).len() <= 48
            &&& batches[0].len() + batches[1].len() + batches[2].len() + batches[3].len() + batches[4].len()
                + batches[5].len() == 254
            &&& (d - 1) % 48 < batches[(d - 1) / 48].len()
            &&& batches[(d - 1) / 48][(d - 1) % 48] == seq![base[0], base[1], base[2], d as u8]
        }),
{
    let k = (d - 1) / 48;
    let j = (d - 1) % 48;
    assert(0 <= k < 6);
    assert(48 * k + j + 1 == d);
    assert(all_batches(base)[k] == batch_hosts(base, k));
    assert(batch_hosts(base, k)[j] == host_address(base, d));
}

/// A subnet is named by three numbers of at most 255 with dots between them.
pub proof fn lemma_base_read(s: Seq<char>)
    ensures
        ({
            let parts = text::split_on(s, '.');
            let fits = |i: int| text::number(parts[i], 10, 255) is Some;
            match base_octets(s) {
                Some(o) => {
                    &&& parts.len() == 3 && o.len() == 3
                    &&& text::number(parts[0], 10, 255) == Some(o[0] as nat)
                    &&& text::number(parts[1], 10, 255) == Some(o[1] as nat)
                    &&& text::number(parts[2], 10, 255) == Some(o[2] as nat)
                },
                None => parts.len() != 3 || !fits(0) || !fits(1) || !fits(2),
            }
        }),
{
}

} // verus!
