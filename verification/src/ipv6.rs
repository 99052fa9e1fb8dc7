//! The neighbours that IPv6 finds on a link by itself. Link-local addresses
//! (`fe80::/10`) work without any configuration on either end, so they reach a
//! device whose IPv4 settings are unknown.
use crate::process::Outcome;
use crate::text;
use vstd::prelude::*;
use vstd::slice::slice_subrange;

verus! {

/// A neighbour on the link.
#[derive(Debug, Clone, PartialEq)]
pub struct Ipv6Neighbor {
    /// The address with the zone that link-local addresses need, such as
    /// `fe80::fc9c:a7ff:fec8:dc64%20`.
    pub address_with_zone: String,
    /// The link-layer address, where one was resolved.
    pub mac: Option<String>,
}

/// The contents of an `Ipv6Neighbor`.
pub struct NeighborView {
    pub address_with_zone: Seq<char>,
    pub mac: Option<Seq<char>>,
}

impl View for Ipv6Neighbor {
    type V = NeighborView;

    open spec fn view(&self) -> NeighborView {
        NeighborView { address_with_zone: self.address_with_zone@, mac: text::opt_view(self.mac) }
    }
}

impl Ipv6Neighbor {
    /// The link-layer address, where there is one, is well formed.
    pub open spec fn ok(&self) -> bool {
        self@.mac matches Some(m) ==> is_mac(m)
    }
}

/// The contents of each of a list of neighbours.
pub open spec fn neighbor_views(list: Seq<Ipv6Neighbor>) -> Seq<NeighborView> {
    list.map_values(|n: Ipv6Neighbor| n@)
}

// ---------------------------------------------------------------------------
// The table of neighbours
// ---------------------------------------------------------------------------

/// Two hexadecimal digits.
pub open spec fn is_hex_pair(s: Seq<char>) -> bool {
    s.len() == 2 && text::is_hex_digit(s[0]) && text::is_hex_digit(s[1])
}

/// Six pairs of hexadecimal digits with dashes between them.
pub open spec fn is_mac(s: Seq<char>) -> bool {
    let groups = text::split_on(s, '-');
    groups.len() == 6 && forall|i: int| 0 <= i < 6 ==> is_hex_pair(#[trigger] groups[i])
}

/// The words after the address of a row that tell its state: all but the
/// link-layer address, if the row has one.
pub open spec fn state_words(rest: Seq<Seq<char>>) -> Seq<Seq<char>> {
    if is_mac(rest[0]) {
        rest.skip(1)
    } else {
        rest
    }
}

/// The live neighbour that a line of the table holds: a link-local address, a
/// link-layer address or none, and a state that is neither unreachable nor
/// incomplete.
pub open spec fn neighbor_of(line: Seq<char>, iface_idx: u32) -> Option<NeighborView> {
    let t = text::trim_of(line);
    let words = text::words_of(t);
    let rest = words.skip(1);
    let state = text::join_with(state_words(rest), " "@);
    if !text::starts(t, "fe80:"@) || words.len() < 2 {
        None
    } else if text::occurs(state, "Unreachable"@) || text::occurs(state, "Incomplete"@) {
        None
    } else {
        Some(
            NeighborView {
                address_with_zone: words[0].push('%') + text::decimal(iface_idx as nat),
                mac: if is_mac(rest[0]) {
                    Some(rest[0])
                } else {
                    None
                },
            },
        )
    }
}

/// The live neighbours that the lines hold, in their order.
pub open spec fn neighbors_of(lines: Seq<Seq<char>>, iface_idx: u32) -> Seq<NeighborView>
    decreases lines.len(),
{
    if lines.len() == 0 {
        seq![]
    } else {
        match neighbor_of(lines.last(), iface_idx) {
            Some(n) => neighbors_of(lines.drop_last(), iface_idx).push(n),
            None => neighbors_of(lines.drop_last(), iface_idx),
        }
    }
}

/// Tells whether a text is a link-layer address as `netsh` writes one.
pub fn looks_like_mac(s: &str) -> (r: bool)
    ensures
        r == is_mac(s@),
{
    let all = text::chars_of(s);
    mac_like(all.as_slice())
}

fn mac_like(s: &[char]) -> (r: bool)
    ensures
        r == is_mac(s@),
{
    let groups = text::split(s, '-');
    let ghost v = text::split_on(s@, '-');
    assert(v.len() == groups@.len());
    if groups.len() != 6 {
        return false;
    }
    let mut i: usize = 0;
    while i < 6
        invariant
            v == text::views(groups@),
            v == text::split_on(s@, '-'),
            v.len() == 6,
            groups@.len() == 6,
            i <= 6,
            forall|j: int| 0 <= j < i ==> is_hex_pair(#[trigger] v[j]),
        decreases 6 - i,
    {
        let g: &[char] = groups[i];
        assert(g@ == v[i as int]);
        if g.len() != 2 || !text::hex_digit(g[0]) || !text::hex_digit(g[1]) {
            assert(!is_hex_pair(v[i as int]));
            return false;
        }
        i += 1;
    }
    true
}

fn parse_neighbor(line: &[char], iface_idx: u32) -> (r: Option<Ipv6Neighbor>)
    ensures
        match r {
            Some(n) => neighbor_of(line@, iface_idx) == Some(n@),
            None => neighbor_of(line@, iface_idx) is None,
        },
{
    let t = text::trim(line);
    let prefix = text::chars_of("fe80:");
    if !text::starts_with(t, prefix.as_slice()) {
        return None;
    }
    let words = text::words(t);
    let ghost v = text::words_of(t@);
    assert(v.len() == words@.len());
    if words.len() < 2 {
        return None;
    }
    let has_mac = mac_like(words[1]);
    let start: usize = if has_mac { 2 } else { 1 };
    let state = text::join_slices(slice_subrange(words.as_slice(), start, words.len()), " ");
    let s = text::chars_of(state.as_str());
    assert(words@[0]@ == v[0] && words@[1]@ == v[1] && v.skip(1)[0] == v[1]);
    assert(text::views(words@.subrange(start as int, words@.len() as int)) =~= state_words(v.skip(1)));
    let unreachable_word = text::chars_of("Unreachable");
    let incomplete_word = text::chars_of("Incomplete");
    if text::contains(s.as_slice(), unreachable_word.as_slice()) || text::contains(
        s.as_slice(),
        incomplete_word.as_slice(),
    ) {
        return None;
    }
    let mut address = text::string_of(words[0]);
    address.push('%');
    text::push_decimal(&mut address, iface_idx as u64);
    let mac = if has_mac { Some(text::string_of(words[1])) } else { None };
    Some(Ipv6Neighbor { address_with_zone: address, mac: mac })
}

/// Reads what `netsh interface ipv6 show neighbors` prints into the live
/// link-local neighbours; groups and entries that never resolved are left out.
pub fn parse_neighbor_table(text: &str, iface_idx: u32) -> (r: Vec<Ipv6Neighbor>)
    ensures
        neighbor_views(r@) == neighbors_of(text::lines_of(text@), iface_idx),
        forall|i: int| 0 <= i < r@.len() ==> (#[trigger] r@[i]).ok(),
{
    let all = text::chars_of(text);
    let lines = text::lines(all.as_slice());
    let ghost v = text::lines_of(text@);
    assert(v.len() == lines@.len());
    let mut out: Vec<Ipv6Neighbor> = Vec::new();
    let mut i: usize = 0;
    assert(neighbor_views(out@) =~= neighbors_of(v.take(0), iface_idx));
    while i < lines.len()
        invariant
            v == text::views(lines@),
            v.len() == lines@.len(),
            i <= lines@.len(),
            neighbor_views(out@) == neighbors_of(v.take(i as int), iface_idx),
        decreases lines@.len() - i,
    {
        let ghost before = out@;
        assert(lines@[i as int]@ == v[i as int]);
        assert(v.take(i + 1).drop_last() =~= v.take(i as int));
        match parse_neighbor(lines[i], iface_idx) {
            Some(n) => {
                out.push(n);
                assert(neighbor_views(out@) =~= neighbor_views(before).push(n@));
            },
            None => {},
        }
        i += 1;
    }
    assert(v.take(i as int) =~= v);
    proof {
        assert forall|k: int| 0 <= k < out@.len() implies (#[trigger] out@[k]).ok() by {
            lemma_neighbors(v, iface_idx, k);
            assert(neighbor_views(out@)[k] == out@[k]@);
        }
    }
    out
}

/// The link-layer address of a neighbour as it is shown: in upper case, as the
/// scan of the IPv4 subnet writes it, and blank where none was resolved.
pub fn shown_mac(neighbor: &Ipv6Neighbor) -> (r: String)
    requires
        neighbor.ok(),
    ensures
        r@ == match neighbor@.mac {
            Some(m) => m.map_values(|c: char| text::upper(c)),
            None => seq![],
        },
{
    match &neighbor.mac {
        Some(m) => {
            let all = text::chars_of(m.as_str());
            let mut out = String::new();
            let mut i: usize = 0;
            let ghost target = m@.map_values(|c: char| text::upper(c));
            while i < all.len()
                invariant
                    all@ == m@,
                    target == m@.map_values(|c: char| text::upper(c)),
                    i <= all@.len(),
                    out@ =~= target.take(i as int),
                decreases all@.len() - i,
            {
                out.push(text::to_upper(all[i]));
                i += 1;
            }
            assert(out@ =~= target);
            out
        },
        None => String::new(),
    }
}

// ---------------------------------------------------------------------------
// Zones
// ---------------------------------------------------------------------------

/// Splits an address from its zone: `fe80::1%20` into `fe80::1` and `20`.
pub fn split_zone(addr: &str) -> (r: (&str, Option<&str>))
    ensures
        ({
            let i = text::index_of(addr@, '%') as int;
            if addr@.contains('%') {
                r.0@ == addr@.take(i) && r.1 is Some && r.1->0@ == addr@.skip(i + 1)
            } else {
                r.0@ == addr@ && r.1 is None
            }
        }),
{
    let s = text::chars_of(addr);
    let n: usize = s.len();
    let i: usize = text::position(s.as_slice(), '%');
    if i < n {
        let base = addr.substring_char(0, i);
        let zone = addr.substring_char(i + 1, n);
        assert(base@ =~= addr@.take(i as int));
        assert(zone@ =~= addr@.skip(i + 1));
        (base, Some(zone))
    } else {
        (addr, None)
    }
}

/// An address as the host of a URL: in brackets, with the percent sign before
/// the zone written as `%25`.
pub open spec fn url_host(addr: Seq<char>) -> Seq<char> {
    let i = text::index_of(addr, '%') as int;
    if addr.contains('%') {
        "["@ + addr.take(i) + "%25"@ + addr.skip(i + 1) + "]"@
    } else {
        "["@ + addr + "]"@
    }
}

/// Writes an address as the host of a URL.
pub fn ipv6_url_host(addr_with_zone: &str) -> (r: String)
    ensures
        r@ == url_host(addr_with_zone@),
{
    let mut out = String::new();
    out.append("[");
    match split_zone(addr_with_zone) {
        (base, Some(zone)) => {
            out.append(base);
            out.append("%25");
            out.append(zone);
        },
        (base, None) => {
            out.append(base);
        },
    }
    out.append("]");
    assert(out@ =~= url_host(addr_with_zone@));
    out
}

// ---------------------------------------------------------------------------
// Command lines
// ---------------------------------------------------------------------------

/// The arguments to `ping` that ask every node on the link once.
pub fn ping_all_nodes_args(iface_idx: u32) -> (r: Vec<String>)
    ensures
        text::string_views(r@) == seq![
            "-6"@,
            "-n"@,
            "1"@,
            "-w"@,
            "500"@,
            "ff02::1%"@ + text::decimal(iface_idx as nat),
        ],
{
    let mut target = "ff02::1%".to_owned();
    text::push_decimal(&mut target, iface_idx as u64);
    let mut out: Vec<String> = Vec::new();
    out.push("-6".to_owned());
    out.push("-n".to_owned());
    out.push("1".to_owned());
    out.push("-w".to_owned());
    out.push("500".to_owned());
    out.push(target);
    assert(text::string_views(out@) =~= seq![
        "-6"@,
        "-n"@,
        "1"@,
        "-w"@,
        "500"@,
        "ff02::1%"@ + text::decimal(iface_idx as nat),
    ]);
    out
}

/// The arguments to `netsh` that print the neighbours of an interface.
pub fn show_neighbors_args(iface_name: &str) -> (r: Vec<String>)
    ensures
        text::string_views(r@) == seq![
            "interface"@,
            "ipv6"@,
            "show"@,
            "neighbors"@,
            "interface="@ + iface_name@,
        ],
{
    let mut target = "interface=".to_owned();
    target.append(iface_name);
    let mut out: Vec<String> = Vec::new();
    out.push("interface".to_owned());
    out.push("ipv6".to_owned());
    out.push("show".to_owned());
    out.push("neighbors".to_owned());
    out.push(target);
    assert(text::string_views(out@) =~= seq![
        "interface"@,
        "ipv6"@,
        "show"@,
        "neighbors"@,
        "interface="@ + iface_name@,
    ]);
    out
}

/// The neighbours of an interface, from what came of the command that prints
/// them: none where it could not be started.
pub fn discover_neighbors(iface_idx: u32, outcome: Outcome) -> (r: Vec<Ipv6Neighbor>)
    ensures
        match outcome {
            Outcome::NotStarted(_) => r@.len() == 0,
            Outcome::Ended { success, stdout, stderr } => neighbor_views(r@) == neighbors_of(
                text::lines_of(stdout@),
                iface_idx,
            ),
        },
        forall|i: int| 0 <= i < r@.len() ==> (#[trigger] r@[i]).ok(),
{
    match outcome {
        Outcome::NotStarted(_) => Vec::new(),
        Outcome::Ended { success, stdout, stderr } => parse_neighbor_table(stdout.as_str(), iface_idx),
    }
}

// ---------------------------------------------------------------------------
// Laws
// ---------------------------------------------------------------------------

/// The two parts that a zone splits an address into make it up again.
pub proof fn lemma_zone_parts(addr: Seq<char>)
    requires
        addr.contains('%'),
    ensures
        addr.take(text::index_of(addr, '%') as int).push('%') + addr.skip(
            text::index_of(addr, '%') as int + 1,
        ) == addr,
{
    text::lemma_index_of_props(addr, '%');
    let i = text::index_of(addr, '%') as int;
    assert(addr.take(i).push('%') + addr.skip(i + 1) =~= addr);
}

proof fn lemma_first_word(t: Seq<char>)
    requires
        text::starts(t, "fe80:"@),
    ensures
        text::words_of(t).len() > 0,
        text::starts(text::words_of(t)[0], "fe80:"@),
{
    reveal_strlit("fe80:");
    let p = "fe80:"@;
    assert forall|i: int| 0 <= i < 5 implies t[i] == p[i] by {
        assert(t.subrange(0, 5)[i] == p[i]);
    }
    reveal_with_fuel(text::word_len, 6);
    text::lemma_word_len_bound(t);
    assert(text::word_len(t) >= 5);
    let w = text::words_of(t)[0];
    assert(w == t.take(text::word_len(t) as int));
    assert(w.subrange(0, 5) =~= p);
}

/// Every neighbour that is listed has an address of the link, with the zone of
/// the interface, and the link-layer address of each that has one is well
/// formed.
pub proof fn lemma_neighbors(lines: Seq<Seq<char>>, iface_idx: u32, k: int)
    requires
        0 <= k < neighbors_of(lines, iface_idx).len(),
    ensures
        text::starts(neighbors_of(lines, iface_idx)[k].address_with_zone, "fe80:"@),
        text::ends(
            neighbors_of(lines, iface_idx)[k].address_with_zone,
            seq!['%'] + text::decimal(iface_idx as nat),
        ),
        neighbors_of(lines, iface_idx)[k].mac matches Some(m) ==> is_mac(m),
    decreases lines.len(),
{
    let all = neighbors_of(lines, iface_idx);
    let init = neighbors_of(lines.drop_last(), iface_idx);
    if k < init.len() {
        lemma_neighbors(lines.drop_last(), iface_idx, k);
        assert(all[k] == init[k]);
    } else {
        let words = text::words_of(text::trim_of(lines.last()));
        let zone = seq!['%'] + text::decimal(iface_idx as nat);
        let a = all[k].address_with_zone;
        assert(a == words[0].push('%') + text::decimal(iface_idx as nat));
        assert(a.subrange(a.len() - zone.len(), a.len() as int) =~= zone);
        lemma_first_word(text::trim_of(lines.last()));
        let n = "fe80:"@.len() as int;
        assert(a.subrange(0, n) =~= words[0].subrange(0, n));
    }
}

/// A line of the table holds a live neighbour exactly where it begins with a
/// link-local address, has more words, and those that tell its state say
/// neither that it is unreachable nor that it is incomplete. The link-layer
/// address, where the second word is one, is told with it.
pub proof fn lemma_neighbor_line(line: Seq<char>, iface_idx: u32)
    ensures
        ({
            let t = text::trim_of(line);
            let words = text::words_of(t);
            let has_mac = is_mac(words[1]);
            let state = text::join_with(
                words.skip(
                    if has_mac {
                        2
                    } else {
                        1
                    },
                ),
                " "@,
            );
            let live = text::starts(t, "fe80:"@) && words.len() >= 2 && !text::occurs(state, "Unreachable"@)
                && !text::occurs(state, "Incomplete"@);
            match neighbor_of(line, iface_idx) {
                Some(n) => {
                    &&& live
                    &&& n.address_with_zone == words[0] + seq!['%'] + text::decimal(iface_idx as nat)
                    &&& has_mac ==> n.mac == Some(words[1])
                    &&& !has_mac ==> n.mac is None
                },
                None => !live,
            }
        }),
{
    let words = text::words_of(text::trim_of(line));
    if words.len() >= 2 {
        assert(words.skip(1)[0] == words[1]);
        assert(words.skip(1).skip(1) =~= words.skip(2));
        assert(words[0].push('%') + text::decimal(iface_idx as nat) =~= words[0] + seq!['%'] + text::decimal(
            iface_idx as nat,
        ));
    }
}

/// One line more of the table adds the neighbour that it holds, last, and
/// nothing where it holds none.
pub proof fn lemma_neighbor_one_more(lines: Seq<Seq<char>>, line: Seq<char>, iface_idx: u32)
    ensures
        neighbors_of(lines.push(line), iface_idx) == match neighbor_of(line, iface_idx) {
            Some(n) => neighbors_of(lines, iface_idx).push(n),
            None => neighbors_of(lines, iface_idx),
        },
        neighbors_of(seq![], iface_idx).len() == 0,
{
    assert(lines.push(line).drop_last() =~= lines);
}

/// A link-layer address is six groups with dashes between them, each of two
/// hexadecimal digits.
pub proof fn lemma_is_mac(s: Seq<char>)
    ensures
        is_mac(s) <==> {
            let groups = text::split_on(s, '-');
            groups.len() == 6 && forall|i: int|
                0 <= i < 6 ==> (#[trigger] groups[i]).len() == 2 && text::digit_of(groups[i][0]) < 16 && text::digit_of(
                    groups[i][1],
                ) < 16
        },
{
    let groups = text::split_on(s, '-');
    if is_mac(s) {
        assert forall|i: int| 0 <= i < 6 implies (#[trigger] groups[i]).len() == 2 && text::digit_of(groups[i][0]) < 16
            && text::digit_of(groups[i][1]) < 16 by {
            assert(is_hex_pair(groups[i]));
        }
    } else if groups.len() == 6 {
        let i = choose|i: int| 0 <= i < 6 && !is_hex_pair(#[trigger] groups[i]);
        assert(groups[i].len() != 2 || text::digit_of(groups[i][0]) >= 16 || text::digit_of(groups[i][1]) >= 16);
    }
}

/// In a URL an address stands in brackets, and the percent sign before its zone
/// is written as `%25`.
pub proof fn lemma_url_host(base: Seq<char>, zone: Seq<char>)
    requires
        !base.contains('%'),
    ensures
        url_host(base) == "["@ + base + "]"@,
        url_host(base.push('%') + zone) == "["@ + base + "%25"@ + zone + "]"@,
{
    let addr = base.push('%') + zone;
    let n = base.len() as int;
    assert(addr[n] == '%');
    assert forall|j: int| 0 <= j < n implies addr[j] != '%' by {
        assert(addr[j] == base[j]);
    }
    text::lemma_index_of(addr, '%', n);
    assert(addr.take(n) =~= base);
    assert(addr.skip(n + 1) =~= zone);
}

} // verus!
