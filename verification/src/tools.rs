//! Waking a device over the network, and the command lines that start the
//! usual network tools.
use crate::scanner;
use crate::text;
use vstd::prelude::*;

verus! {

// ---------------------------------------------------------------------------
// Wake-on-LAN
// ---------------------------------------------------------------------------

/// The magic packet for a device: six bytes of ones, then its link-layer
/// address sixteen times.
pub open spec fn magic_packet(mac: Seq<u8>) -> Seq<u8> {
    Seq::new(102, |i: int| if i < 6 { 0xffu8 } else { mac[i % 6] })
}

/// Builds the magic packet that wakes a device.
pub fn build_magic_packet(mac: [u8; 6]) -> (r: [u8; 102])
    ensures
        r@ == magic_packet(mac@),
{
    let mut packet: [u8; 102] = [0u8; 102];
    let mut i: usize = 0;
    while i < 102
        invariant
            i <= 102,
            forall|j: int| 0 <= j < i ==> #[trigger] packet@[j] == magic_packet(mac@)[j],
        decreases 102 - i,
    {
        let b: u8 = if i < 6 { 0xff } else { mac[i % 6] };
        packet[i] = b;
        i += 1;
    }
    assert(packet@ =~= magic_packet(mac@));
    packet
}

/// The parts of a link-layer address text between its dashes and colons.
pub open spec fn mac_parts(s: Seq<char>) -> Seq<Seq<char>> {
    text::split_on(s.map_values(|c: char| if c == ':' { '-' } else { c }), '-')
}

/// The six bytes that a link-layer address text writes in hexadecimal.
pub open spec fn mac_bytes(s: Seq<char>) -> Option<Seq<u8>> {
    let parts = mac_parts(s);
    if parts.len() == 6 && forall|i: int| 0 <= i < 6 ==> text::number(#[trigger] parts[i], 16, 255) is Some {
        Some(Seq::new(6, |i: int| text::number(parts[i], 16, 255)->0 as u8))
    } else {
        None
    }
}

/// Reads a link-layer address such as `AA-BB-CC-DD-EE-FF`, with dashes or
/// colons.
pub fn parse_mac(text: &str) -> (r: Option<[u8; 6]>)
    ensures
        match r {
            Some(mac) => mac_bytes(text@) == Some(mac@),
            None => mac_bytes(text@) is None,
        },
{
    let all = text::chars_of(text);
    let ghost dashed = text@.map_values(|c: char| if c == ':' { '-' } else { c });
    let mut s: Vec<char> = Vec::new();
    let mut k: usize = 0;
    while k < all.len()
        invariant
            all@ == text@,
            dashed == text@.map_values(|c: char| if c == ':' { '-' } else { c }),
            k <= all@.len(),
            s@ =~= dashed.take(k as int),
        decreases all@.len() - k,
    {
        s.push(if all[k] == ':' { '-' } else { all[k] });
        k += 1;
    }
    assert(s@ =~= dashed);
    let parts = text::split(s.as_slice(), '-');
    let ghost v = mac_parts(text@);
    assert(v.len() == parts@.len());
    if parts.len() != 6 {
        return None;
    }
    let mut out: [u8; 6] = [0, 0, 0, 0, 0, 0];
    let mut i: usize = 0;
    while i < 6
        invariant
            v == text::views(parts@),
            v == mac_parts(text@),
            v.len() == 6,
            parts@.len() == 6,
            i <= 6,
            forall|j: int| 0 <= j < i ==> text::number(#[trigger] v[j], 16, 255) == Some(out@[j] as nat),
        decreases 6 - i,
    {
        assert(parts@[i as int]@ == v[i as int]);
        match text::parse_number(parts[i], 16, 255) {
            Some(b) => {
                out[i] = b as u8;
            },
            None => {
                assert(text::number(v[i as int], 16, 255) is None);
                return None;
            },
        }
        i += 1;
    }
    proof {
        let bytes = Seq::new(6, |i: int| text::number(v[i], 16, 255)->0 as u8);
        assert forall|j: int| 0 <= j < 6 implies bytes[j] == out@[j] by {
            assert(text::number(v[j], 16, 255) == Some(out@[j] as nat));
        }
        assert(bytes =~= out@);
    }
    Some(out)
}

// ---------------------------------------------------------------------------
// Command lines
// ---------------------------------------------------------------------------

/// The arguments to `cmd` that open a console window with a program in it.
pub fn launch_visible(program: &str, args: &[&str]) -> (r: Vec<String>)
    ensures
        r@.len() == 3 + args@.len(),
        r@[0]@ == "/C"@,
        r@[1]@ == "start"@,
        r@[2]@ == program@,
        forall|i: int| 0 <= i < args@.len() ==> (#[trigger] r@[3 + i])@ == args@[i]@,
{
    let mut out: Vec<String> = Vec::new();
    out.push("/C".to_owned());
    out.push("start".to_owned());
    out.push(program.to_owned());
    let mut i: usize = 0;
    while i < args.len()
        invariant
            i <= args@.len(),
            out@.len() == 3 + i,
            out@[0]@ == "/C"@,
            out@[1]@ == "start"@,
            out@[2]@ == program@,
            forall|j: int| 0 <= j < i ==> (#[trigger] out@[3 + j])@ == args@[j]@,
        decreases args@.len() - i,
    {
        out.push(args[i].to_owned());
        i += 1;
    }
    out
}

/// The arguments to `cmd` that open an address in the default browser.
pub fn open_browser(url: &str) -> (r: Vec<String>)
    ensures
        text::string_views(r@) == seq!["/C"@, "start"@, url@],
{
    let mut out: Vec<String> = Vec::new();
    out.push("/C".to_owned());
    out.push("start".to_owned());
    out.push(url.to_owned());
    assert(text::string_views(out@) =~= seq!["/C"@, "start"@, url@]);
    out
}

// ---------------------------------------------------------------------------
// Tools for one device
// ---------------------------------------------------------------------------

/// A tool that is run in a terminal against one device.
#[derive(Debug, Clone, Copy, PartialEq, Eq)]
pub enum Tool {
    Ping,
    Traceroute,
    Ssh,
}

/// How a tool is run: the title of its tab, the program with its arguments,
/// and the title of the message where it cannot be started.
#[derive(Debug, Clone, PartialEq)]
pub struct Launch {
    pub title: String,
    pub program: String,
    pub args: Vec<String>,
    pub fail_title: String,
}

/// The program of a tool.
pub open spec fn program_of(tool: Tool) -> Seq<char> {
    match tool {
        Tool::Ping => "ping"@,
        Tool::Traceroute => "tracert"@,
        Tool::Ssh => "ssh"@,
    }
}

/// Tells how to run a tool against a device.
pub fn launch(tool: Tool, ip: &str) -> (r: Launch)
    ensures
        r.program@ == program_of(tool),
        match tool {
            Tool::Ping => r.title@ == "Ping "@ + ip@ && text::string_views(r.args@) == seq!["-t"@, ip@]
                && r.fail_title@ == "Could not start ping"@,
            Tool::Traceroute => r.title@ == "Traceroute "@ + ip@ && text::string_views(r.args@) == seq![ip@]
                && r.fail_title@ == "Could not start traceroute"@,
            Tool::Ssh => r.title@ == "SSH "@ + ip@ && text::string_views(r.args@) == seq![ip@] && r.fail_title@
                == "Could not start SSH"@,
        },
{
    let (name, program, fail_title) = match tool {
        Tool::Ping => ("Ping ", "ping", "Could not start ping"),
        Tool::Traceroute => ("Traceroute ", "tracert", "Could not start traceroute"),
        Tool::Ssh => ("SSH ", "ssh", "Could not start SSH"),
    };
    let mut title = name.to_owned();
    title.append(ip);
    let mut args: Vec<String> = Vec::new();
    match tool {
        Tool::Ping => {
            args.push("-t".to_owned());
        },
        _ => {},
    }
    args.push(ip.to_owned());
    match tool {
        Tool::Ping => {
            assert(text::string_views(args@) =~= seq!["-t"@, ip@]);
        },
        _ => {
            assert(text::string_views(args@) =~= seq![ip@]);
        },
    }
    Launch { title: title, program: program.to_owned(), args: args, fail_title: fail_title.to_owned() }
}

/// What is said where a tool could not be started in a console either: for SSH
/// with the hint that it may not be installed.
pub fn launch_failed(tool: Tool, error: &str) -> (r: String)
    ensures
        r@ == error@ + (if tool is Ssh {
            "\n\nWindows' OpenSSH client (ssh.exe) may not be installed \u{2014} it's an optional Windows feature."@
        } else {
            seq![]
        }),
{
    let mut out = error.to_owned();
    match tool {
        Tool::Ssh => {
            out.append(
                "\n\nWindows' OpenSSH client (ssh.exe) may not be installed \u{2014} it's an optional Windows feature.",
            );
        },
        _ => {
            assert(out@ + seq![] =~= out@);
        },
    }
    out
}

// ---------------------------------------------------------------------------
// Laws
// ---------------------------------------------------------------------------

proof fn lemma_hex_no_separator(b: u8)
    ensures
        !text::hex_byte(b).contains('-'),
        !text::hex_byte(b).contains(':'),
        text::hex_byte(b).len() == 2,
{
    text::lemma_hex_byte(b);
}

proof fn lemma_mac_text_parts(mac: Seq<u8>)
    requires
        mac.len() > 0,
    ensures
        text::split_on(scanner::mac_text(mac), '-') == mac.map_values(|b: u8| text::hex_byte(b)),
        !scanner::mac_text(mac).contains(':'),
    decreases mac.len(),
{
    let t = scanner::mac_text(mac);
    let parts = mac.map_values(|b: u8| text::hex_byte(b));
    lemma_hex_no_separator(mac.last());
    if mac.len() == 1 {
        text::lemma_split_single(t, '-');
        assert(parts =~= seq![t]);
    } else {
        let init = mac.drop_last();
        lemma_mac_text_parts(init);
        let h = scanner::mac_text(init);
        let last = text::hex_byte(mac.last());
        lemma_split_last(h, '-', last);
        assert(parts =~= init.map_values(|b: u8| text::hex_byte(b)).push(last));
        assert forall|i: int| 0 <= i < t.len() implies t[i] != ':' by {
            if i < h.len() {
                assert(t[i] == h[i]);
            } else if i > h.len() {
                assert(t[i] == last[i - h.len() - 1]);
            }
        }
    }
}

proof fn lemma_split_last(s: Seq<char>, c: char, last: Seq<char>)
    requires
        !last.contains(c),
    ensures
        text::split_on(s.push(c) + last, c) == text::split_on(s, c).push(last),
    decreases s.len(),
{
    text::lemma_index_of_props(s, c);
    let i = text::index_of(s, c) as int;
    let whole = s.push(c) + last;
    if i >= s.len() {
        text::lemma_split_first(s, c, last);
        text::lemma_split_single(last, c);
        assert(text::split_on(whole, c) =~= seq![s].push(last));
    } else {
        let head = s.take(i);
        let rest = s.skip(i + 1);
        lemma_split_last(rest, c, last);
        assert(whole =~= head.push(c) + (rest.push(c) + last));
        text::lemma_split_first(head, c, rest.push(c) + last);
        assert(text::split_on(whole, c) =~= text::split_on(s, c).push(last));
    }
}

/// Writing a link-layer address and reading it gives the address back.
pub proof fn lemma_mac_round_trip(mac: Seq<u8>)
    requires
        mac.len() == 6,
    ensures
        mac_bytes(scanner::mac_text(mac)) == Some(mac),
{
    let t = scanner::mac_text(mac);
    lemma_mac_text_parts(mac);
    let dashed = t.map_values(|c: char| if c == ':' { '-' } else { c });
    assert forall|i: int| 0 <= i < t.len() implies dashed[i] == t[i] by {
        assert(t.contains(t[i]));
    }
    assert(dashed =~= t);
    let parts = mac_parts(t);
    assert forall|i: int| 0 <= i < 6 implies text::number(#[trigger] parts[i], 16, 255) == Some(mac[i] as nat) by {
        text::lemma_hex_byte(mac[i]);
    }
    assert(Seq::new(6, |i: int| text::number(parts[i], 16, 255)->0 as u8) =~= mac);
}

/// The magic packet is made of the six bytes of ones and sixteen copies of the
/// address, one after the other.
pub proof fn lemma_magic_packet(mac: Seq<u8>, k: int)
    requires
        mac.len() == 6,
        0 <= k < 16,
    ensures
        magic_packet(mac).len() == 102,
        magic_packet(mac).subrange(0, 6) == Seq::new(6, |i: int| 0xffu8),
        magic_packet(mac).subrange(6 + 6 * k, 12 + 6 * k) == mac,
{
    assert(magic_packet(mac).subrange(0, 6) =~= Seq::new(6, |i: int| 0xffu8));
    let part = magic_packet(mac).subrange(6 + 6 * k, 12 + 6 * k);
    assert forall|j: int| 0 <= j < 6 implies part[j] == mac[j] by {
        assert((6 + 6 * k + j) % 6 == j);
    }
    assert(part =~= mac);
}

/// An address with colons is read as the same one with dashes.
pub proof fn lemma_mac_separators(s: Seq<char>)
    ensures
        mac_bytes(s) == mac_bytes(s.map_values(|c: char| if c == ':' { '-' } else { c })),
{
    let dashed = s.map_values(|c: char| if c == ':' { '-' } else { c });
    assert(dashed.map_values(|c: char| if c == ':' { '-' } else { c }) =~= dashed);
}

/// A text without colons is a link-layer address exactly where it is six
/// numbers in hexadecimal, each of at most 255, with dashes between them; and
/// those are its bytes.
pub proof fn lemma_mac_read(s: Seq<char>)
    requires
        !s.contains(':'),
    ensures
        ({
            let parts = text::split_on(s, '-');
            match mac_bytes(s) {
                Some(mac) => {
                    &&& parts.len() == 6
                    &&& mac.len() == 6
                    &&& forall|i: int| 0 <= i < 6 ==> text::number(#[trigger] parts[i], 16, 255) == Some(mac[i] as nat)
                },
                None => parts.len() != 6 || exists|i: int|
                    0 <= i < 6 && text::number(#[trigger] parts[i], 16, 255) is None,
            }
        }),
{
    let dashed = s.map_values(|c: char| if c == ':' { '-' } else { c });
    assert forall|i: int| 0 <= i < s.len() implies dashed[i] == s[i] by {
        assert(s.contains(s[i]));
    }
    assert(dashed =~= s);
    let parts = text::split_on(s, '-');
    if mac_bytes(s) is Some {
        let mac = mac_bytes(s)->0;
        assert forall|i: int| 0 <= i < 6 implies text::number(#[trigger] parts[i], 16, 255) == Some(mac[i] as nat) by {
            assert(text::number(parts[i], 16, 255) is Some);
        }
    }
}

/// Each tool has a program of its own: `ping`, `tracert` and `ssh`.
pub proof fn lemma_program(tool: Tool)
    ensures
        program_of(tool) == if tool is Ping {
            "ping"@
        } else if tool is Traceroute {
            "tracert"@
        } else {
            "ssh"@
        },
{
}

} // verus!
