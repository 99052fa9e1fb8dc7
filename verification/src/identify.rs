//! What a device is: its vendor, its name and the services that answer. The
//! questions are put to the network elsewhere; this module says what to make
//! of the answers.
use crate::ipv6;
use crate::oui;
use crate::process::Outcome;
use crate::text;
use vstd::prelude::*;

verus! {

/// The ports that tell something of a device, with the name of the service on
/// each.
pub const PORTS_TO_CHECK: [(u16, &'static str); 11] = [
    (21, "FTP"),
    (22, "SSH"),
    (23, "Telnet"),
    (80, "HTTP"),
    (102, "S7comm"),
    (443, "HTTPS"),
    (445, "SMB"),
    (502, "Modbus"),
    (3389, "RDP"),
    (20000, "DNP3"),
    (44818, "EtherNet/IP"),
];

/// What is known of a device.
#[derive(Debug, Clone, PartialEq, Default)]
pub struct IdentifyResult {
    pub vendor: Option<String>,
    pub hostname: Option<String>,
    pub open_ports: Vec<&'static str>,
}

/// The contents of an `IdentifyResult`.
pub struct IdentifyView {
    pub vendor: Option<Seq<char>>,
    pub hostname: Option<Seq<char>>,
    pub open_ports: Seq<Seq<char>>,
}

impl View for IdentifyResult {
    type V = IdentifyView;

    open spec fn view(&self) -> IdentifyView {
        IdentifyView {
            vendor: text::opt_view(self.vendor),
            hostname: text::opt_view(self.hostname),
            open_ports: text::str_views(self.open_ports@),
        }
    }
}

/// The bytes of an IP address.
#[derive(Debug, Clone, Copy, PartialEq, Eq)]
pub enum Address {
    V4([u8; 4]),
    V6([u8; 16]),
}

/// An address to connect to: one without a zone, of either family, or an IPv6
/// address with the number of its zone.
#[derive(Debug, Clone, Copy, PartialEq, Eq)]
pub enum Target {
    V4(Address),
    V6 { addr: [u8; 16], scope_id: u32 },
}

// ---------------------------------------------------------------------------
// Addresses
// ---------------------------------------------------------------------------

/// Tells whether an address is an IPv6 address.
pub fn is_ipv6(ip: &str) -> (r: bool)
    ensures
        r == ip@.contains(':'),
{
    let s = text::chars_of(ip);
    let n: usize = s.len();
    text::position(s.as_slice(), ':') < n
}

/// The target that a text names, where `parsed` is the address that its part
/// before the zone is, if it is one: none where it is not, where only an IPv6
/// address can have the zone that it has, or where the zone is not a number.
pub open spec fn target_of(ip: Seq<char>, parsed: Option<Address>) -> Option<Target> {
    if ip.contains('%') {
        let zone = ip.skip(text::index_of(ip, '%') as int + 1);
        match (parsed, text::number(zone, 10, u32::MAX as nat)) {
            (Some(Address::V6(addr)), Some(n)) => Some(Target::V6 { addr: addr, scope_id: n as u32 }),
            _ => None,
        }
    } else {
        match parsed {
            Some(addr) => Some(Target::V4(addr)),
            None => None,
        }
    }
}

/// Finds the target that a text names. `parsed` is the address that its part
/// before the zone (see `ipv6::split_zone`) is, if it is one.
pub fn resolve_target(ip: &str, parsed: Option<Address>) -> (r: Option<Target>)
    ensures
        r == target_of(ip@, parsed),
{
    match ipv6::split_zone(ip) {
        (_, Some(zone)) => {
            let z = text::chars_of(zone);
            match (parsed, text::parse_number(z.as_slice(), 10, u32::MAX)) {
                (Some(Address::V6(addr)), Some(scope_id)) => Some(Target::V6 { addr: addr, scope_id: scope_id }),
                _ => None,
            }
        },
        (_, None) => match parsed {
            Some(addr) => Some(Target::V4(addr)),
            None => None,
        },
    }
}

// ---------------------------------------------------------------------------
// Names
// ---------------------------------------------------------------------------

/// A line of the name table that registers a machine under the service `tag`.
pub open spec fn registers(line: Seq<char>, tag: Seq<char>) -> bool {
    let t = text::trim_of(line);
    text::words_of(t).len() > 0 && text::occurs(t, tag) && text::occurs(t, "UNIQUE"@)
}

/// The name on the first line that registers a machine under `tag`.
pub open spec fn registered_name(lines: Seq<Seq<char>>, tag: Seq<char>) -> Option<Seq<char>>
    decreases lines.len(),
{
    if lines.len() == 0 {
        None
    } else if registers(lines[0], tag) {
        Some(text::words_of(text::trim_of(lines[0]))[0])
    } else {
        registered_name(lines.skip(1), tag)
    }
}

/// The machine name in a name table: that of the file service, `<20>`, before
/// that of the workstation service, `<00>`; none where the host was not found.
pub open spec fn netbios_of(s: Seq<char>) -> Option<Seq<char>> {
    let lines = text::lines_of(s);
    if text::occurs(s, "Host not found"@) {
        None
    } else if registered_name(lines, "<20>"@) is Some {
        registered_name(lines, "<20>"@)
    } else {
        registered_name(lines, "<00>"@)
    }
}

/// Reads the machine name out of what `nbtstat -A` prints.
pub fn parse_netbios_name(text: &str) -> (r: Option<String>)
    ensures
        text::opt_view(r) == netbios_of(text@),
{
    let all = text::chars_of(text);
    let missing = text::chars_of("Host not found");
    if text::contains(all.as_slice(), missing.as_slice()) {
        return None;
    }
    let server = text::chars_of("<20>");
    let workstation = text::chars_of("<00>");
    let unique = text::chars_of("UNIQUE");
    let lines = text::lines(all.as_slice());
    let ghost v = text::lines_of(text@);
    assert(v.len() == lines@.len());
    let mut fallback: Option<String> = None;
    let mut i: usize = 0;
    assert(v.skip(0) =~= v);
    while i < lines.len()
        invariant
            !text::occurs(text@, "Host not found"@),
            server@ == "<20>"@,
            workstation@ == "<00>"@,
            unique@ == "UNIQUE"@,
            v == text::lines_of(text@),
            v == text::views(lines@),
            v.len() == lines@.len(),
            i <= lines@.len(),
            registered_name(v, "<20>"@) == registered_name(v.skip(i as int), "<20>"@),
            registered_name(v, "<00>"@) == (if fallback is Some {
                text::opt_view(fallback)
            } else {
                registered_name(v.skip(i as int), "<00>"@)
            }),
        decreases lines@.len() - i,
    {
        let line = text::trim(lines[i]);
        let words = text::words(line);
        assert(lines@[i as int]@ == v[i as int]);
        assert(line@ == text::trim_of(v[i as int]));
        assert(text::words_of(line@).len() == words@.len());
        assert(v.skip(i as int)[0] == v[i as int]);
        assert(v.skip(i as int).skip(1) =~= v.skip(i + 1));
        if words.len() > 0 {
            assert(words@[0]@ == text::words_of(line@)[0]);
            let is_unique = text::contains(line, unique.as_slice());
            if is_unique && text::contains(line, server.as_slice()) {
                return Some(text::string_of(words[0]));
            }
            if fallback.is_none() && is_unique && text::contains(line, workstation.as_slice()) {
                fallback = Some(text::string_of(words[0]));
            }
        }
        i += 1;
    }
    fallback
}

/// The machine name in what came of `nbtstat -A`: none where it could not be
/// started.
pub open spec fn netbios_answer(outcome: Outcome) -> Option<Seq<char>> {
    match outcome {
        Outcome::NotStarted(_) => None,
        Outcome::Ended { success, stdout, stderr } => netbios_of(stdout@),
    }
}

/// Finds the machine name in what came of `nbtstat -A`.
pub fn netbios_name(outcome: &Outcome) -> (r: Option<String>)
    ensures
        text::opt_view(r) == netbios_answer(*outcome),
{
    match outcome {
        Outcome::NotStarted(_) => None,
        Outcome::Ended { success, stdout, stderr } => parse_netbios_name(stdout.as_str()),
    }
}

/// A name from reverse DNS is of use where it is neither empty nor the
/// address itself.
pub open spec fn is_useful_name(ip: Seq<char>, name: Seq<char>) -> bool {
    name.len() > 0 && name != ip
}

/// Tells whether a name from reverse DNS is of use.
pub fn useful_name(ip: &str, name: &str) -> (r: bool)
    ensures
        r == is_useful_name(ip@, name@),
{
    let n = text::chars_of(name);
    n.len() > 0 && !text::str_same(name, ip)
}

/// The name of a device: that from reverse DNS if it is of use, else the one
/// in its name table. Neither applies to an IPv6 address.
pub open spec fn hostname_of(
    ip: Seq<char>,
    dns_name: Option<Seq<char>>,
    nbtstat: Option<Outcome>,
) -> Option<Seq<char>> {
    if ip.contains(':') {
        None
    } else {
        match dns_name {
            Some(name) if is_useful_name(ip, name) => Some(name),
            _ => match nbtstat {
                Some(outcome) => netbios_answer(outcome),
                None => None,
            },
        }
    }
}

// ---------------------------------------------------------------------------
// Ports
// ---------------------------------------------------------------------------

/// The names of the ports that answered, in their order.
pub open spec fn open_names(ports: Seq<(u16, &'static str)>, answered: Seq<bool>) -> Seq<&'static str>
    decreases ports.len(),
{
    if ports.len() == 0 {
        seq![]
    } else if answered[ports.len() - 1] {
        open_names(ports.drop_last(), answered).push(ports.last().1)
    } else {
        open_names(ports.drop_last(), answered)
    }
}

/// The names of the ports that answered: `answered[i]` tells whether
/// `ports[i]` did.
fn answering_ports(ports: &[(u16, &'static str)], answered: &[bool]) -> (r: Vec<&'static str>)
    requires
        answered@.len() == ports@.len(),
    ensures
        r@ == open_names(ports@, answered@),
{
    let mut out: Vec<&'static str> = Vec::new();
    let mut i: usize = 0;
    assert(open_names(ports@.take(0), answered@) =~= seq![]);
    while i < ports.len()
        invariant
            answered@.len() == ports@.len(),
            i <= ports@.len(),
            out@ == open_names(ports@.take(i as int), answered@),
        decreases ports@.len() - i,
    {
        assert(ports@.take(i + 1).drop_last() =~= ports@.take(i as int));
        if answered[i] {
            out.push(ports[i].1);
        }
        i += 1;
    }
    assert(ports@.take(i as int) =~= ports@);
    out
}

/// The names of the ports that answered at a target.
pub open spec fn ports_at(
    target: Option<Target>,
    ports: Seq<(u16, &'static str)>,
    answered: Seq<bool>,
) -> Seq<&'static str> {
    if target is Some {
        open_names(ports, answered)
    } else {
        seq![]
    }
}

/// The names of the ports that answered, where `answered[i]` tells whether
/// `ports[i]` did; none where the text names no target.
pub fn port_scan(
    ip: &str,
    parsed: Option<Address>,
    ports: &[(u16, &'static str)],
    answered: &[bool],
) -> (r: Vec<&'static str>)
    requires
        answered@.len() == ports@.len(),
    ensures
        r@ == ports_at(target_of(ip@, parsed), ports@, answered@),
{
    match resolve_target(ip, parsed) {
        Some(_) => answering_ports(ports, answered),
        None => Vec::new(),
    }
}

// ---------------------------------------------------------------------------
// All together
// ---------------------------------------------------------------------------

/// Puts together what is known of a device: `mac` is its link-layer address,
/// if one was resolved, `dns_name` the name from reverse DNS, `nbtstat` what
/// came of `nbtstat -A`, if it was asked, `parsed` the address that the part of
/// `ip` before the zone is, if it is one, and `answered[i]` tells whether port
/// number `i` of `PORTS_TO_CHECK` accepted a connection.
pub fn identify(
    table: &[(u32, String)],
    ip: &str,
    mac: Option<[u8; 6]>,
    dns_name: Option<String>,
    nbtstat: Option<Outcome>,
    parsed: Option<Address>,
    answered: &[bool],
) -> (r: IdentifyResult)
    requires
        oui::sorted(table@),
        answered@.len() == PORTS_TO_CHECK@.len(),
    ensures
        match r.vendor {
            Some(vendor) => mac is Some && exists|i: int|
                0 <= i < table@.len() && (#[trigger] table@[i]).0 == oui::prefix_of(mac->0@) && vendor@
                    == table@[i].1@,
            None => mac is Some ==> forall|i: int|
                0 <= i < table@.len() ==> (#[trigger] table@[i]).0 != oui::prefix_of(mac->0@),
        },
        text::opt_view(r.hostname) == hostname_of(ip@, text::opt_view(dns_name), nbtstat),
        r.open_ports@ == ports_at(target_of(ip@, parsed), PORTS_TO_CHECK@, answered@),
{
    let vendor = match mac {
        Some(m) => match oui::vendor_lookup_mac(table, m) {
            Some(v) => Some(v.to_owned()),
            None => None,
        },
        None => None,
    };
    let hostname = if is_ipv6(ip) {
        None
    } else {
        let useful = match &dns_name {
            Some(name) => useful_name(ip, name.as_str()),
            None => false,
        };
        if useful {
            dns_name
        } else {
            match nbtstat {
                Some(outcome) => netbios_name(&outcome),
                None => None,
            }
        }
    };
    let ports: [(u16, &'static str); 11] = PORTS_TO_CHECK;
    let open_ports = port_scan(ip, parsed, ports.as_slice(), answered);
    IdentifyResult { vendor: vendor, hostname: hostname, open_ports: open_ports }
}

// ---------------------------------------------------------------------------
// Laws
// ---------------------------------------------------------------------------

/// The name under a service is that on the first line that registers a single
/// machine under it: no group, and none where no line does.
pub proof fn lemma_registered_name(lines: Seq<Seq<char>>, tag: Seq<char>)
    ensures
        match registered_name(lines, tag) {
            Some(name) => exists|i: int|
                {
                    &&& 0 <= i < lines.len()
                    &&& registers(#[trigger] lines[i], tag)
                    &&& name == text::words_of(text::trim_of(lines[i]))[0]
                    &&& forall|j: int| 0 <= j < i ==> !registers(#[trigger] lines[j], tag)
                },
            None => forall|j: int| 0 <= j < lines.len() ==> !registers(#[trigger] lines[j], tag),
        },
    decreases lines.len(),
{
    if lines.len() > 0 && !registers(lines[0], tag) {
        let rest = lines.skip(1);
        lemma_registered_name(rest, tag);
        match registered_name(rest, tag) {
            Some(name) => {
                let i = choose|i: int|
                    {
                        &&& 0 <= i < rest.len()
                        &&& registers(#[trigger] rest[i], tag)
                        &&& name == text::words_of(text::trim_of(rest[i]))[0]
                        &&& forall|j: int| 0 <= j < i ==> !registers(#[trigger] rest[j], tag)
                    };
                assert(lines[i + 1] == rest[i]);
                assert forall|j: int| 0 <= j < i + 1 implies !registers(#[trigger] lines[j], tag) by {
                    if j > 0 {
                        assert(lines[j] == rest[j - 1]);
                    }
                }
                assert(registers(lines[i + 1], tag));
            },
            None => {
                assert forall|j: int| 0 <= j < lines.len() implies !registers(#[trigger] lines[j], tag) by {
                    if j > 0 {
                        assert(lines[j] == rest[j - 1]);
                    }
                }
            },
        }
    } else if lines.len() > 0 {
        assert(registers(lines[0], tag));
    }
}

/// The services that are told are those that answered, and no others.
pub proof fn lemma_open_names(ports: Seq<(u16, &'static str)>, answered: Seq<bool>, name: &'static str)
    requires
        answered.len() == ports.len(),
    ensures
        open_names(ports, answered).contains(name) <==> exists|i: int|
            0 <= i < ports.len() && answered[i] && (#[trigger] ports[i]).1 == name,
{
    lemma_open_names_upto(ports, answered, name);
}

proof fn lemma_open_names_upto(ports: Seq<(u16, &'static str)>, answered: Seq<bool>, name: &'static str)
    requires
        ports.len() <= answered.len(),
    ensures
        open_names(ports, answered).contains(name) <==> exists|i: int|
            0 <= i < ports.len() && answered[i] && (#[trigger] ports[i]).1 == name,
    decreases ports.len(),
{
    if ports.len() > 0 {
        let init = ports.drop_last();
        let last = ports.len() - 1;
        lemma_open_names_upto(init, answered, name);
        let some = open_names(init, answered);
        let all = open_names(ports, answered);
        if all.contains(name) {
            let j = choose|j: int| 0 <= j < all.len() && all[j] == name;
            if j < some.len() {
                assert(some[j] == name);
                let i = choose|i: int| 0 <= i < init.len() && answered[i] && (#[trigger] init[i]).1 == name;
                assert(ports[i] == init[i]);
            } else {
                assert(ports[last].1 == name);
            }
        }
        if exists|i: int| 0 <= i < ports.len() && answered[i] && (#[trigger] ports[i]).1 == name {
            let i = choose|i: int| 0 <= i < ports.len() && answered[i] && (#[trigger] ports[i]).1 == name;
            if i < last {
                assert(init[i] == ports[i]);
                let j = choose|j: int| 0 <= j < some.len() && some[j] == name;
                assert(all[j] == name);
            } else {
                assert(all[all.len() - 1] == name);
            }
        }
    }
}

/// Where a device has its name from: never for an IPv6 address; else the name
/// from reverse DNS, if there is one and it is neither empty nor the address
/// itself; else, also where reverse DNS gave none, the name that the name table
/// registers. There is no name only where neither source gives one.
pub proof fn lemma_hostname(ip: Seq<char>, dns_name: Option<Seq<char>>, nbtstat: Option<Outcome>)
    ensures
        ({
            let name = hostname_of(ip, dns_name, nbtstat);
            let by_dns = dns_name is Some && dns_name->0.len() > 0 && dns_name->0 != ip;
            &&& ip.contains(':') ==> name is None
            &&& !ip.contains(':') && by_dns ==> name == dns_name
            &&& !ip.contains(':') && !by_dns ==> match nbtstat {
                Some(Outcome::Ended { success, stdout, stderr }) => name == netbios_of(stdout@),
                Some(Outcome::NotStarted(_)) => name is None,
                None => name is None,
            }
            &&& name is None && !ip.contains(':') ==> {
                &&& dns_name is None || dns_name->0.len() == 0 || dns_name->0 == ip
                &&& nbtstat matches Some(Outcome::Ended { success, stdout, stderr }) ==> netbios_of(stdout@) is None
            }
        }),
{
}

/// Line `i` of a name table registers a single machine under a service.
pub open spec fn registers_one(s: Seq<char>, i: int, tag: Seq<char>) -> bool {
    let lines = text::lines_of(s);
    &&& 0 <= i < lines.len()
    &&& text::occurs(text::trim_of(lines[i]), tag)
    &&& text::occurs(text::trim_of(lines[i]), "UNIQUE"@)
}

/// The name that a name table gives is the first word of the first line that
/// registers a single machine under `<20>`, or, where no line does, under
/// `<00>`. It gives none where no line does either, or where it says that the
/// host was not found.
pub proof fn lemma_name_table(s: Seq<char>, i: int)
    ensures
        ({
            let word = text::words_of(text::trim_of(text::lines_of(s)[i]))[0];
            let missing = text::occurs(s, "Host not found"@);
            &&& missing ==> netbios_of(s) is None
            &&& !missing && registers_one(s, i, "<20>"@) && (forall|j: int|
                0 <= j < i ==> !#[trigger] registers_one(s, j, "<20>"@)) ==> netbios_of(s) == Some(word)
            &&& !missing && (forall|j: int| !#[trigger] registers_one(s, j, "<20>"@)) && registers_one(s, i, "<00>"@)
                && (forall|j: int| 0 <= j < i ==> !#[trigger] registers_one(s, j, "<00>"@)) ==> netbios_of(s) == Some(
                word,
            )
            &&& !missing && (forall|j: int| !#[trigger] registers_one(s, j, "<20>"@)) && (forall|j: int|
                !#[trigger] registers_one(s, j, "<00>"@)) ==> netbios_of(s) is None
        }),
{
    let lines = text::lines_of(s);
    lemma_registered_name(lines, "<20>"@);
    lemma_registered_name(lines, "<00>"@);
    assert forall|j: int| 0 <= j < lines.len() implies registers(#[trigger] lines[j], "<20>"@) == registers_one(
        s,
        j,
        "<20>"@,
    ) by {
        text::lemma_trimmed_ends(lines[j]);
        lemma_has_word(text::trim_of(lines[j]));
    }
    assert forall|j: int| 0 <= j < lines.len() implies registers(#[trigger] lines[j], "<00>"@) == registers_one(
        s,
        j,
        "<00>"@,
    ) by {
        text::lemma_trimmed_ends(lines[j]);
        lemma_has_word(text::trim_of(lines[j]));
    }
    if registers_one(s, i, "<20>"@) && forall|j: int| 0 <= j < i ==> !#[trigger] registers_one(s, j, "<20>"@) {
        assert(registers(lines[i], "<20>"@));
        let k = choose|k: int|
            {
                &&& 0 <= k < lines.len()
                &&& registers(#[trigger] lines[k], "<20>"@)
                &&& registered_name(lines, "<20>"@)->0 == text::words_of(text::trim_of(lines[k]))[0]
                &&& forall|j: int| 0 <= j < k ==> !registers(#[trigger] lines[j], "<20>"@)
            };
        assert(registers_one(s, k, "<20>"@));
        assert(k == i);
    }
    if forall|j: int| !#[trigger] registers_one(s, j, "<20>"@) {
        if registered_name(lines, "<20>"@) is Some {
            let k = choose|k: int| 0 <= k < lines.len() && registers(#[trigger] lines[k], "<20>"@);
            assert(registers_one(s, k, "<20>"@));
        }
        if registers_one(s, i, "<00>"@) && forall|j: int| 0 <= j < i ==> !#[trigger] registers_one(s, j, "<00>"@) {
            assert(registers(lines[i], "<00>"@));
            let k = choose|k: int|
                {
                    &&& 0 <= k < lines.len()
                    &&& registers(#[trigger] lines[k], "<00>"@)
                    &&& registered_name(lines, "<00>"@)->0 == text::words_of(text::trim_of(lines[k]))[0]
                    &&& forall|j: int| 0 <= j < k ==> !registers(#[trigger] lines[j], "<00>"@)
                };
            assert(registers_one(s, k, "<00>"@));
            assert(k == i);
        }
        if forall|j: int| !#[trigger] registers_one(s, j, "<00>"@) {
            if registered_name(lines, "<00>"@) is Some {
                let k = choose|k: int| 0 <= k < lines.len() && registers(#[trigger] lines[k], "<00>"@);
                assert(registers_one(s, k, "<00>"@));
            }
        }
    }
}

proof fn lemma_has_word(t: Seq<char>)
    requires
        t.len() > 0 ==> !text::is_space(t[0]),
    ensures
        text::occurs(t, "UNIQUE"@) ==> text::words_of(t).len() > 0,
{
    reveal_strlit("UNIQUE");
}

/// One port more adds its name, last, where it answered, and nothing where it
/// did not; without ports there is no name. Without a target no name is told.
pub proof fn lemma_one_port_more(
    ports: Seq<(u16, &'static str)>,
    answered: Seq<bool>,
    port: (u16, &'static str),
    answers: bool,
    ip: Seq<char>,
    parsed: Option<Address>,
)
    requires
        answered.len() == ports.len(),
    ensures
        ({
            let before = ports_at(target_of(ip, parsed), ports, answered);
            let after = ports_at(target_of(ip, parsed), ports.push(port), answered.push(answers));
            &&& target_of(ip, parsed) is None ==> before.len() == 0 && after.len() == 0
            &&& target_of(ip, parsed) is Some ==> after == if answers {
                before.push(port.1)
            } else {
                before
            }
            &&& ports.len() == 0 ==> before.len() == 0
        }),
{
    assert(ports.push(port).drop_last() =~= ports);
    lemma_open_names_prefix(ports, answered, answered.push(answers));
}

proof fn lemma_open_names_prefix(ports: Seq<(u16, &'static str)>, a: Seq<bool>, b: Seq<bool>)
    requires
        ports.len() <= a.len(),
        ports.len() <= b.len(),
        forall|i: int| 0 <= i < ports.len() ==> #[trigger] a[i] == b[i],
    ensures
        open_names(ports, a) == open_names(ports, b),
    decreases ports.len(),
{
    if ports.len() > 0 {
        assert(a[ports.len() - 1] == b[ports.len() - 1]);
        lemma_open_names_prefix(ports.drop_last(), a, b);
    }
}

/// A text without a zone names the address that it is. One with a zone names an
/// IPv6 address with the number of its zone, and nothing where the part before
/// the zone is no IPv6 address or the zone no number. A text whose part before
/// the zone is no address names nothing.
pub proof fn lemma_target(ip: Seq<char>, parsed: Option<Address>, base: Seq<char>, zone: Seq<char>)
    ensures
        parsed is None ==> target_of(ip, parsed) is None,
        !ip.contains('%') && parsed is Some ==> target_of(ip, parsed) == Some(Target::V4(parsed->0)),
        !base.contains('%') && ip == base.push('%') + zone ==> match (parsed, text::number(zone, 10, u32::MAX as nat)) {
            (Some(Address::V6(addr)), Some(n)) => target_of(ip, parsed) matches Some(Target::V6 { addr: a, scope_id })
                && a == addr && scope_id == n,
            _ => target_of(ip, parsed) is None,
        },
{
    if !base.contains('%') && ip == base.push('%') + zone {
        let n = base.len() as int;
        assert(ip[n] == '%');
        assert forall|j: int| 0 <= j < n implies ip[j] != '%' by {
            assert(ip[j] == base[j]);
        }
        text::lemma_index_of(ip, '%', n);
        assert(ip.skip(n + 1) =~= zone);
    }
}

/// The ports that are tried, in their order, each with its service.
pub proof fn lemma_ports_tried()
    ensures
        PORTS_TO_CHECK@ == seq![
            (21u16, "FTP"),
            (22u16, "SSH"),
            (23u16, "Telnet"),
            (80u16, "HTTP"),
            (102u16, "S7comm"),
            (443u16, "HTTPS"),
            (445u16, "SMB"),
            (502u16, "Modbus"),
            (3389u16, "RDP"),
            (20000u16, "DNP3"),
            (44818u16, "EtherNet/IP"),
        ],
{
    assert(PORTS_TO_CHECK@ =~= seq![
        (21u16, "FTP"),
        (22u16, "SSH"),
        (23u16, "Telnet"),
        (80u16, "HTTP"),
        (102u16, "S7comm"),
        (443u16, "HTTPS"),
        (445u16, "SMB"),
        (502u16, "Modbus"),
        (3389u16, "RDP"),
        (20000u16, "DNP3"),
        (44818u16, "EtherNet/IP"),
    ]);
}

} // verus!
