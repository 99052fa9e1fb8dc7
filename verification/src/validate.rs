//! IPv4 addresses, subnet masks and gateways as a user types them: what is
//! accepted, what it means, and the message for what is not.
use crate::text;
use vstd::arithmetic::power2::*;
use vstd::prelude::*;

verus! {

// ---------------------------------------------------------------------------
// Addresses
// ---------------------------------------------------------------------------

/// Every character of `s` is an ASCII digit.
pub open spec fn only_digits(s: Seq<char>) -> bool {
    forall|i: int| 0 <= i < s.len() ==> text::is_digit(#[trigger] s[i])
}

/// The number that one part of a dotted address writes: digits alone, at
/// least one of them, with a value that a byte can hold.
pub open spec fn octet(part: Seq<char>) -> Option<u8> {
    if part.len() > 0 && only_digits(part) && text::digits_value(part, 10) <= 255 {
        Some(text::digits_value(part, 10) as u8)
    } else {
        None
    }
}

/// The message for an address that has not four parts.
pub open spec fn count_message(s: Seq<char>) -> Seq<char> {
    "'"@ + s + "' is not a valid IPv4 address (expected 4 octets)"@
}

/// The message for a part that is no octet.
pub open spec fn octet_message(s: Seq<char>, part: Seq<char>) -> Seq<char> {
    if part.len() == 0 || !only_digits(part) {
        "'"@ + s + "' is not a valid IPv4 address (bad octet '"@ + part + "')"@
    } else {
        "'"@ + s + "' is not a valid IPv4 address (octet '"@ + part + "' out of range)"@
    }
}

/// What an address text means: white space around it is of no account, four
/// parts stand between dots, and each is an octet. The message is about the
/// first part that is none.
pub open spec fn ipv4_result(s: Seq<char>) -> Result<Seq<u8>, Seq<char>> {
    let t = text::trim_of(s);
    let parts = text::split_on(t, '.');
    if parts.len() != 4 {
        Err(count_message(t))
    } else if octet(parts[0]) is None {
        Err(octet_message(t, parts[0]))
    } else if octet(parts[1]) is None {
        Err(octet_message(t, parts[1]))
    } else if octet(parts[2]) is None {
        Err(octet_message(t, parts[2]))
    } else if octet(parts[3]) is None {
        Err(octet_message(t, parts[3]))
    } else {
        Ok(seq![octet(parts[0])->0, octet(parts[1])->0, octet(parts[2])->0, octet(parts[3])->0])
    }
}

proof fn lemma_only_digits(s: Seq<char>)
    requires
        only_digits(s),
    ensures
        text::unsigned_part(s) == s,
        text::all_digits(s, 10),
{
    assert forall|i: int| 0 <= i < s.len() implies text::digit_of(#[trigger] s[i]) < 10 by {
        assert(text::is_digit(s[i]));
    }
    if s.len() > 0 {
        assert(text::is_digit(s[0]));
    }
}

/// Reads one part of a dotted address.
fn parse_octet(part: &[char]) -> (r: Option<u8>)
    ensures
        r == octet(part@),
{
    if part.len() == 0 || !digits_only(part) {
        return None;
    }
    proof {
        lemma_only_digits(part@);
    }
    match text::parse_number(part, 10, 255) {
        Some(v) => Some(v as u8),
        None => None,
    }
}

/// Tells whether every character is an ASCII digit.
fn digits_only(s: &[char]) -> (r: bool)
    ensures
        r == only_digits(s@),
{
    let mut i: usize = 0;
    while i < s.len()
        invariant
            i <= s@.len(),
            forall|j: int| 0 <= j < i ==> text::is_digit(#[trigger] s@[j]),
        decreases s@.len() - i,
    {
        if !text::digit(s[i]) {
            assert(!text::is_digit(s@[i as int]));
            return false;
        }
        i += 1;
    }
    true
}

fn octet_error(s: &[char], part: &[char]) -> (r: String)
    ensures
        r@ == octet_message(s@, part@),
{
    let mut e = String::new();
    e.append("'");
    text::push_chars(&mut e, s);
    if part.len() == 0 || !digits_only(part) {
        e.append("' is not a valid IPv4 address (bad octet '");
        text::push_chars(&mut e, part);
        e.append("')");
        assert(e@ =~= octet_message(s@, part@));
    } else {
        e.append("' is not a valid IPv4 address (octet '");
        text::push_chars(&mut e, part);
        e.append("' out of range)");
        assert(e@ =~= octet_message(s@, part@));
    }
    e
}

/// Reads a dotted IPv4 address.
pub fn parse_ipv4(s: &str) -> (r: Result<[u8; 4], String>)
    ensures
        match r {
            Ok(octets) => ipv4_result(s@) == Ok::<Seq<u8>, Seq<char>>(octets@),
            Err(e) => ipv4_result(s@) == Err::<Seq<u8>, Seq<char>>(e@),
        },
{
    let all = text::chars_of(s);
    let t = text::trim(all.as_slice());
    let parts = text::split(t, '.');
    let ghost v = text::split_on(t@, '.');
    assert(v.len() == parts@.len());
    if parts.len() != 4 {
        let mut e = String::new();
        e.append("'");
        text::push_chars(&mut e, t);
        e.append("' is not a valid IPv4 address (expected 4 octets)");
        assert(e@ =~= count_message(t@));
        return Err(e);
    }
    let mut out: [u8; 4] = [0, 0, 0, 0];
    let mut i: usize = 0;
    while i < 4
        invariant
            t@ == text::trim_of(s@),
            v == text::split_on(t@, '.'),
            v == text::views(parts@),
            v.len() == 4,
            parts@.len() == 4,
            i <= 4,
            forall|j: int| 0 <= j < i ==> octet(#[trigger] v[j]) == Some(out@[j]),
        decreases 4 - i,
    {
        let part: &[char] = parts[i];
        assert(part@ == v[i as int]);
        match parse_octet(part) {
            Some(b) => {
                out[i] = b;
            },
            None => {
                let e = octet_error(t, part);
                assert(i == 0 || octet(v[0]) is Some);
                assert(i <= 1 || octet(v[1]) is Some);
                assert(i <= 2 || octet(v[2]) is Some);
                return Err(e);
            },
        }
        i += 1;
    }
    assert(octet(v[0]) == Some(out@[0]) && octet(v[1]) == Some(out@[1]));
    assert(octet(v[2]) == Some(out@[2]) && octet(v[3]) == Some(out@[3]));
    assert(out@ =~= seq![octet(v[0])->0, octet(v[1])->0, octet(v[2])->0, octet(v[3])->0]);
    Ok(out)
}

// ---------------------------------------------------------------------------
// Masks
// ---------------------------------------------------------------------------

/// The bytes read as one number, the first byte highest.
pub open spec fn be_value(octets: Seq<u8>) -> nat {
    (octets[0] * 0x100_0000 + octets[1] * 0x1_0000 + octets[2] * 0x100 + octets[3]) as nat
}

/// The number whose highest `n` of 32 bits are ones and whose others are zeros.
pub open spec fn prefix_mask(n: nat) -> nat {
    (0x1_0000_0000 - pow2((32 - n) as nat)) as nat
}

/// Some run of ones followed by zeros makes up the whole of the 32 bits.
pub open spec fn contiguous(value: nat) -> bool {
    exists|n: nat| n <= 32 && value == #[trigger] prefix_mask(n)
}

/// The number of ones among the binary digits of `value`.
pub open spec fn ones(value: nat) -> nat
    decreases value,
{
    if value == 0 {
        0
    } else {
        value % 2 + ones(value / 2)
    }
}

/// What a mask text means: an address whose bits are contiguous.
pub open spec fn mask_result(s: Seq<char>) -> Result<Seq<u8>, Seq<char>> {
    match ipv4_result(s) {
        Err(_) => Err("'"@ + s + "' is not a valid subnet mask"@),
        Ok(octets) => if contiguous(be_value(octets)) {
            Ok(octets)
        } else {
            Err("'"@ + s + "' is not a valid subnet mask (bits must be contiguous)"@)
        },
    }
}

fn value_of(octets: [u8; 4]) -> (r: u32)
    ensures
        r == be_value(octets@),
{
    octets[0] as u32 * 0x100_0000 + octets[1] as u32 * 0x1_0000 + octets[2] as u32 * 0x100 + octets[3] as u32
}

proof fn lemma_prefix_mask_step(n: nat)
    requires
        n < 32,
    ensures
        prefix_mask(n + 1) == prefix_mask(n) / 2 + 0x8000_0000,
        prefix_mask(n + 1) <= 0xffff_ffff,
{
    lemma2_to64();
    lemma_pow2_unfold((32 - n) as nat);
    lemma_pow2_pos((31 - n) as nat);
    lemma_pow2_strictly_increases_all(n);
}

proof fn lemma_pow2_strictly_increases_all(n: nat)
    requires
        n < 32,
    ensures
        pow2((32 - n) as nat) <= 0x1_0000_0000,
{
    lemma2_to64();
    if n > 0 {
        lemma_pow2_strictly_increases((32 - n) as nat, 32);
    }
}

/// Tells whether the bits are a run of ones followed by zeros.
fn is_contiguous(value: u32) -> (r: bool)
    ensures
        r == contiguous(value as nat),
{
    let mut n: u32 = 0;
    let mut mask: u32 = 0;
    proof {
        lemma2_to64();
        assert(prefix_mask(0) == 0);
    }
    loop
        invariant
            n <= 32,
            mask == prefix_mask(n as nat),
            forall|k: nat| k < n ==> value != #[trigger] prefix_mask(k),
        decreases 32 - n,
    {
        if value == mask {
            return true;
        }
        if n == 32 {
            return false;
        }
        proof {
            lemma_prefix_mask_step(n as nat);
        }
        mask = mask / 2 + 0x8000_0000;
        n += 1;
    }
}

/// Reads a subnet mask: an address whose bits are a run of ones followed by
/// zeros.
pub fn parse_mask(s: &str) -> (r: Result<[u8; 4], String>)
    ensures
        match r {
            Ok(octets) => mask_result(s@) == Ok::<Seq<u8>, Seq<char>>(octets@),
            Err(e) => mask_result(s@) == Err::<Seq<u8>, Seq<char>>(e@),
        },
{
    match parse_ipv4(s) {
        Err(_) => {
            let mut e = String::new();
            e.append("'");
            e.append(s);
            e.append("' is not a valid subnet mask");
            assert(e@ =~= "'"@ + s@ + "' is not a valid subnet mask"@);
            Err(e)
        },
        Ok(octets) => {
            if !is_contiguous(value_of(octets)) {
                let mut e = String::new();
                e.append("'");
                e.append(s);
                e.append("' is not a valid subnet mask (bits must be contiguous)");
                assert(e@ =~= "'"@ + s@ + "' is not a valid subnet mask (bits must be contiguous)"@);
                return Err(e);
            }
            Ok(octets)
        },
    }
}

proof fn lemma_ones_bound(v: nat)
    ensures
        ones(v) <= v,
    decreases v,
{
    if v > 0 {
        lemma_ones_bound(v / 2);
    }
}

/// The number of ones in a mask; the prefix length of a contiguous one.
pub fn mask_prefix_len(mask: [u8; 4]) -> (r: u32)
    ensures
        r == ones(be_value(mask@)),
{
    let value: u32 = value_of(mask);
    let mut v: u32 = value;
    let mut n: u32 = 0;
    proof {
        lemma_ones_bound(value as nat);
    }
    while v > 0
        invariant
            n + ones(v as nat) == ones(value as nat),
            ones(value as nat) <= u32::MAX,
        decreases v,
    {
        n += v % 2;
        v /= 2;
    }
    n
}

// ---------------------------------------------------------------------------
// Complete settings
// ---------------------------------------------------------------------------

/// The network part of an address: the bits that the mask keeps.
pub open spec fn network_of(ip: Seq<u8>, mask: Seq<u8>) -> Seq<u8> {
    Seq::new(4, |i: int| ip[i] & mask[i])
}

/// The network part of an address.
pub fn network_addr(ip: [u8; 4], mask: [u8; 4]) -> (r: [u8; 4])
    ensures
        r@ == network_of(ip@, mask@),
{
    let r: [u8; 4] = [ip[0] & mask[0], ip[1] & mask[1], ip[2] & mask[2], ip[3] & mask[3]];
    assert(r@ =~= network_of(ip@, mask@));
    r
}

/// The message for a gateway that the subnet does not reach.
pub open spec fn gateway_message(gateway: Seq<char>, ip: Seq<char>, prefix: nat) -> Seq<char> {
    "Gateway "@ + gateway + " is not inside the "@ + ip + "/"@ + text::decimal(prefix) + " subnet"@
}

/// What comes of checking a complete static configuration: the address first,
/// then the mask, then the gateway, which may be blank.
pub open spec fn config_result(ip: Seq<char>, mask: Seq<char>, gateway: Seq<char>) -> Result<(), Seq<char>> {
    let gw = text::trim_of(gateway);
    match ipv4_result(ip) {
        Err(e) => Err("IP address: "@ + e),
        Ok(ip_octets) => match mask_result(mask) {
            Err(e) => Err("Subnet mask: "@ + e),
            Ok(mask_octets) => if gw.len() == 0 {
                Ok(())
            } else {
                match ipv4_result(gw) {
                    Err(e) => Err("Gateway: "@ + e),
                    Ok(gw_octets) => if network_of(ip_octets, mask_octets) != network_of(gw_octets, mask_octets) {
                        Err(gateway_message(gw, ip, ones(be_value(mask_octets))))
                    } else {
                        Ok(())
                    },
                }
            },
        },
    }
}

fn prefixed(label: &str, e: &str) -> (r: String)
    ensures
        r@ == label@ + e@,
{
    let mut out = String::new();
    out.append(label);
    out.append(e);
    assert(out@ =~= label@ + e@);
    out
}

fn same_octets(a: [u8; 4], b: [u8; 4]) -> (r: bool)
    ensures
        r == (a@ == b@),
{
    let r = a[0] == b[0] && a[1] == b[1] && a[2] == b[2] && a[3] == b[3];
    assert(r ==> a@ =~= b@);
    r
}

/// Checks a complete static configuration: address and mask must be well
/// formed, and a gateway, if one is given, must lie inside the subnet.
pub fn validate_static_config(ip: &str, mask: &str, gateway: &str) -> (r: Result<(), String>)
    ensures
        match r {
            Ok(_) => config_result(ip@, mask@, gateway@) is Ok,
            Err(e) => config_result(ip@, mask@, gateway@) == Err::<(), Seq<char>>(e@),
        },
{
    let ip_octets = match parse_ipv4(ip) {
        Ok(o) => o,
        Err(e) => {
            return Err(prefixed("IP address: ", e.as_str()));
        },
    };
    let mask_octets = match parse_mask(mask) {
        Ok(o) => o,
        Err(e) => {
            return Err(prefixed("Subnet mask: ", e.as_str()));
        },
    };
    let all = text::chars_of(gateway);
    let gw = text::trim(all.as_slice());
    if gw.len() == 0 {
        return Ok(());
    }
    let gw_text = text::string_of(gw);
    let gw_octets = match parse_ipv4(gw_text.as_str()) {
        Ok(o) => o,
        Err(e) => {
            return Err(prefixed("Gateway: ", e.as_str()));
        },
    };
    if !same_octets(network_addr(ip_octets, mask_octets), network_addr(gw_octets, mask_octets)) {
        let mut e = String::new();
        e.append("Gateway ");
        text::push_chars(&mut e, gw);
        e.append(" is not inside the ");
        e.append(ip);
        e.append("/");
        text::push_decimal(&mut e, mask_prefix_len(mask_octets) as u64);
        e.append(" subnet");
        assert(e@ =~= gateway_message(gw@, ip@, ones(be_value(mask_octets@))));
        return Err(e);
    }
    Ok(())
}

// ---------------------------------------------------------------------------
// Laws
// ---------------------------------------------------------------------------

proof fn lemma_ones_run(b: nat, k: nat)
    requires
        k <= b,
    ensures
        ones((pow2(b) - pow2(k)) as nat) == b - k,
    decreases b,
{
    lemma_pow2_pos(b);
    lemma_pow2_pos(k);
    if k < b {
        lemma_pow2_strictly_increases(k, b);
        lemma_pow2_unfold(b);
        let v = (pow2(b) - pow2(k)) as nat;
        if k > 0 {
            lemma_pow2_unfold(k);
            lemma_ones_run((b - 1) as nat, (k - 1) as nat);
            assert(v % 2 == 0 && v / 2 == pow2((b - 1) as nat) - pow2((k - 1) as nat));
        } else {
            lemma2_to64();
            lemma_ones_run((b - 1) as nat, 0);
            assert(v % 2 == 1 && v / 2 == pow2((b - 1) as nat) - 1);
        }
    }
}

/// Every prefix length has a contiguous mask, whose number of ones is that
/// length.
pub proof fn lemma_prefix_length(n: nat)
    requires
        n <= 32,
    ensures
        contiguous(prefix_mask(n)),
        ones(prefix_mask(n)) == n,
{
    lemma2_to64();
    lemma_ones_run(32, (32 - n) as nat);
}

/// A static configuration is accepted exactly where the address and the mask
/// are well formed and the gateway is blank or a well-formed address inside
/// the subnet that the two name.
pub proof fn lemma_accepted_configs(ip: Seq<char>, mask: Seq<char>, gateway: Seq<char>)
    ensures
        config_result(ip, mask, gateway) is Ok <==> {
            &&& ipv4_result(ip) is Ok
            &&& mask_result(mask) is Ok
            &&& {
                ||| text::trim_of(gateway).len() == 0
                ||| {
                    &&& ipv4_result(gateway) is Ok
                    &&& network_of(ipv4_result(ip)->Ok_0, mask_result(mask)->Ok_0) == network_of(
                        ipv4_result(gateway)->Ok_0,
                        mask_result(mask)->Ok_0,
                    )
                }
            }
        },
{
    text::lemma_trimmed_ends(gateway);
    text::lemma_trim_fixed(text::trim_of(gateway));
}

/// Four bytes in decimal with dots between them.
pub open spec fn dotted(octets: Seq<u8>) -> Seq<char> {
    text::decimal(octets[0] as nat).push('.') + (text::decimal(octets[1] as nat).push('.') + (text::decimal(
        octets[2] as nat,
    ).push('.') + text::decimal(octets[3] as nat)))
}

proof fn lemma_octet_of_decimal(b: u8)
    ensures
        octet(text::decimal(b as nat)) == Some(b),
        !text::decimal(b as nat).contains('.'),
        text::decimal(b as nat).len() > 0,
        !text::is_space(text::decimal(b as nat)[0]),
        !text::is_space(text::decimal(b as nat).last()),
{
    let d = text::decimal(b as nat);
    text::lemma_decimal(b as nat);
    assert(text::is_digit(d[0]));
    assert(text::is_digit(d[d.len() - 1]));
    assert forall|i: int| 0 <= i < d.len() implies d[i] != '.' by {
        assert(text::is_digit(d[i]));
    }
}

/// Writing an address and reading it gives the address back.
pub proof fn lemma_address_round_trip(octets: Seq<u8>)
    requires
        octets.len() == 4,
    ensures
        ipv4_result(dotted(octets)) == Ok::<Seq<u8>, Seq<char>>(octets),
{
    let a = text::decimal(octets[0] as nat);
    let b = text::decimal(octets[1] as nat);
    let c = text::decimal(octets[2] as nat);
    let d = text::decimal(octets[3] as nat);
    lemma_octet_of_decimal(octets[0]);
    lemma_octet_of_decimal(octets[1]);
    lemma_octet_of_decimal(octets[2]);
    lemma_octet_of_decimal(octets[3]);
    let s = dotted(octets);
    assert(s[0] == a[0]);
    assert(s.last() == d.last());
    text::lemma_trim_fixed(s);
    text::lemma_split_single(d, '.');
    text::lemma_split_first(c, '.', d);
    text::lemma_split_first(b, '.', c.push('.') + d);
    text::lemma_split_first(a, '.', b.push('.') + (c.push('.') + d));
    let parts = text::split_on(s, '.');
    assert(parts =~= seq![a, b, c, d]);
    assert(octets =~= seq![octets[0], octets[1], octets[2], octets[3]]);
}

/// An address is accepted exactly where, white space around it aside, it is four
/// parts with dots between them, each of digits alone, at least one, and at most
/// 255; and it stands for the numbers that they write.
pub proof fn lemma_address_read(s: Seq<char>)
    ensures
        ({
            let parts = text::split_on(text::trim_of(s), '.');
            let good = |i: int|
                {
                    &&& parts[i].len() > 0
                    &&& forall|j: int| 0 <= j < parts[i].len() ==> '0' <= #[trigger] parts[i][j] <= '9'
                    &&& text::digits_value(parts[i], 10) <= 255
                };
            match ipv4_result(s) {
                Ok(octets) => {
                    &&& parts.len() == 4
                    &&& octets.len() == 4
                    &&& good(0) && octets[0] == text::digits_value(parts[0], 10)
                    &&& good(1) && octets[1] == text::digits_value(parts[1], 10)
                    &&& good(2) && octets[2] == text::digits_value(parts[2], 10)
                    &&& good(3) && octets[3] == text::digits_value(parts[3], 10)
                },
                Err(_) => parts.len() != 4 || !good(0) || !good(1) || !good(2) || !good(3),
            }
        }),
{
    let parts = text::split_on(text::trim_of(s), '.');
    assert forall|i: int| 0 <= i < parts.len() implies only_digits(#[trigger] parts[i]) == (forall|j: int|
        0 <= j < parts[i].len() ==> '0' <= #[trigger] parts[i][j] <= '9') by {
        if only_digits(parts[i]) {
            assert forall|j: int| 0 <= j < parts[i].len() implies '0' <= #[trigger] parts[i][j] <= '9' by {
                assert(text::is_digit(parts[i][j]));
            }
        } else {
            let j = choose|j: int| 0 <= j < parts[i].len() && !text::is_digit(#[trigger] parts[i][j]);
            assert(!('0' <= parts[i][j] <= '9'));
        }
    }
    if parts.len() == 4 {
        assert(only_digits(parts[0]) || !only_digits(parts[0]));
        assert(only_digits(parts[1]) || !only_digits(parts[1]));
        assert(only_digits(parts[2]) || !only_digits(parts[2]));
        assert(only_digits(parts[3]) || !only_digits(parts[3]));
    }
}

/// A mask is accepted exactly where it is an address whose 32 bits are a run of
/// ones followed by zeros alone: for some length `n`, two to the 32nd less two
/// to the power of the bits that are left.
pub proof fn lemma_mask_read(s: Seq<char>)
    ensures
        match ipv4_result(s) {
            Ok(o) => {
                let value = o[0] * 0x100_0000 + o[1] * 0x1_0000 + o[2] * 0x100 + o[3];
                &&& mask_result(s) is Ok <==> exists|n: nat|
                    n <= 32 && #[trigger] pow2((32 - n) as nat) == 0x1_0000_0000 - value
                &&& mask_result(s) matches Ok(m) ==> m == o
            },
            Err(_) => mask_result(s) is Err,
        },
{
    if let Ok(o) = ipv4_result(s) {
        let value = o[0] * 0x100_0000 + o[1] * 0x1_0000 + o[2] * 0x100 + o[3];
        assert forall|n: nat| n <= 32 implies #[trigger] pow2((32 - n) as nat) <= 0x1_0000_0000 by {
            lemma2_to64();
            if n > 0 {
                lemma_pow2_strictly_increases((32 - n) as nat, 32);
            }
        }
        if contiguous(value as nat) {
            let n = choose|n: nat| n <= 32 && value as nat == #[trigger] prefix_mask(n);
            assert(pow2((32 - n) as nat) == 0x1_0000_0000 - value);
        }
        if exists|n: nat| n <= 32 && #[trigger] pow2((32 - n) as nat) == 0x1_0000_0000 - value {
            let n = choose|n: nat| n <= 32 && #[trigger] pow2((32 - n) as nat) == 0x1_0000_0000 - value;
            assert(value as nat == prefix_mask(n));
        }
    }
}

/// The number of ones of a mask that is accepted is the length of its run.
pub proof fn lemma_mask_length(s: Seq<char>, n: nat)
    requires
        mask_result(s) is Ok,
        n <= 32,
        pow2((32 - n) as nat) == 0x1_0000_0000 - be_value(mask_result(s)->Ok_0),
    ensures
        ones(be_value(mask_result(s)->Ok_0)) == n,
{
    lemma_prefix_length(n);
    lemma2_to64();
    if n > 0 {
        lemma_pow2_strictly_increases((32 - n) as nat, 32);
    }
}

/// Two addresses lie in the same network exactly where they agree in all bits
/// that the mask has.
pub proof fn lemma_same_network(a: Seq<u8>, b: Seq<u8>, mask: Seq<u8>)
    ensures
        network_of(a, mask) == network_of(b, mask) <==> {
            &&& a[0] & mask[0] == b[0] & mask[0]
            &&& a[1] & mask[1] == b[1] & mask[1]
            &&& a[2] & mask[2] == b[2] & mask[2]
            &&& a[3] & mask[3] == b[3] & mask[3]
        },
{
    let na = network_of(a, mask);
    let nb = network_of(b, mask);
    assert(na[0] == a[0] & mask[0] && na[1] == a[1] & mask[1] && na[2] == a[2] & mask[2] && na[3] == a[3] & mask[3]);
    assert(nb[0] == b[0] & mask[0] && nb[1] == b[1] & mask[1] && nb[2] == b[2] & mask[2] && nb[3] == b[3] & mask[3]);
    if na != nb {
        assert(!(na =~= nb));
    }
}

/// What is said of settings that are refused is about the first of the three
/// that is wrong, and names it.
pub proof fn lemma_refusal(ip: Seq<char>, mask: Seq<char>, gateway: Seq<char>)
    ensures
        config_result(ip, mask, gateway) matches Err(e) ==> {
            if ipv4_result(ip) is Err {
                e == "IP address: "@ + ipv4_result(ip)->Err_0
            } else if mask_result(mask) is Err {
                e == "Subnet mask: "@ + mask_result(mask)->Err_0
            } else if ipv4_result(gateway) is Err {
                e == "Gateway: "@ + ipv4_result(gateway)->Err_0
            } else {
                e == "Gateway "@ + text::trim_of(gateway) + " is not inside the "@ + ip + "/"@ + text::decimal(
                    ones(be_value(mask_result(mask)->Ok_0)),
                ) + " subnet"@
            }
        },
{
    text::lemma_trimmed_ends(gateway);
    text::lemma_trim_fixed(text::trim_of(gateway));
}

} // verus!
