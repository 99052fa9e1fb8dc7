//! Network interfaces and their IPv4 configuration, as the `netsh` command
//! reports them.
use crate::process::Outcome;
use crate::text;
use vstd::prelude::*;
use vstd::slice::slice_subrange;

verus! {

/// The version of the layout that a saved configuration is written in.
pub const SCHEMA_VERSION: u32 = 1;

/// The IPv4 configuration of one interface.
#[derive(Debug, Clone, PartialEq)]
pub struct InterfaceConfig {
    pub name: String,
    pub dhcp: bool,
    pub ip: Option<String>,
    pub mask: Option<String>,
    pub gateway: Option<String>,
    pub dns: Vec<String>,
    /// The name servers are set by hand, whether or not the address is.
    pub static_dns: bool,
}

/// One row of the table of interfaces.
#[derive(Debug, Clone, PartialEq)]
pub struct InterfaceSummary {
    pub idx: u32,
    pub name: String,
    pub state: String,
}

/// The contents of an `InterfaceConfig`.
pub struct ConfigView {
    pub name: Seq<char>,
    pub dhcp: bool,
    pub ip: Option<Seq<char>>,
    pub mask: Option<Seq<char>>,
    pub gateway: Option<Seq<char>>,
    pub dns: Seq<Seq<char>>,
    pub static_dns: bool,
}

/// The contents of an `InterfaceSummary`.
pub struct SummaryView {
    pub idx: u32,
    pub name: Seq<char>,
    pub state: Seq<char>,
}

impl View for InterfaceConfig {
    type V = ConfigView;

    open spec fn view(&self) -> ConfigView {
        ConfigView {
            name: self.name@,
            dhcp: self.dhcp,
            ip: text::opt_view(self.ip),
            mask: text::opt_view(self.mask),
            gateway: text::opt_view(self.gateway),
            dns: text::string_views(self.dns@),
            static_dns: self.static_dns,
        }
    }
}

impl View for InterfaceSummary {
    type V = SummaryView;

    open spec fn view(&self) -> SummaryView {
        SummaryView { idx: self.idx, name: self.name@, state: self.state@ }
    }
}

// ---------------------------------------------------------------------------
// The table of interfaces
// ---------------------------------------------------------------------------

/// The position right after the `n`th word of `s`, counted from one; the
/// length of `s` where it has fewer words.
pub open spec fn nth_word_end(s: Seq<char>, n: nat) -> nat
    decreases s.len(),
{
    if s.len() == 0 || n == 0 {
        s.len()
    } else if text::is_space(s[0]) {
        1 + nth_word_end(s.skip(1), n)
    } else if n == 1 {
        text::word_len(s)
    } else {
        proof {
            text::lemma_word_len_bound(s);
        }
        text::word_len(s) + nth_word_end(s.skip(text::word_len(s) as int), (n - 1) as nat)
    }
}

/// The line that sets the heading off from the rows: dashes and white space
/// alone, with at least one dash.
pub open spec fn is_separator(line: Seq<char>) -> bool {
    &&& line.contains('-')
    &&& forall|i: int| 0 <= i < line.len() ==> #[trigger] line[i] == '-' || text::is_space(line[i])
}

/// The number of lines up to the separator and with it.
pub open spec fn heading_len(lines: Seq<Seq<char>>) -> nat
    decreases lines.len(),
{
    if lines.len() == 0 {
        0
    } else if is_separator(lines[0]) {
        1
    } else {
        1 + heading_len(lines.skip(1))
    }
}

/// The row that a line holds: a number, two words that are of no account, the
/// state, and the rest of the line as the name, none of them missing.
pub open spec fn row_of(line: Seq<char>) -> Option<SummaryView> {
    let t = text::trim_start_of(text::trim_end_of(line));
    let words = text::words_of(t);
    let name = text::trim_of(t.skip(nth_word_end(t, 4) as int));
    if words.len() >= 4 && text::number(words[0], 10, u32::MAX as nat) is Some && name.len() > 0 {
        Some(
            SummaryView {
                idx: text::number(words[0], 10, u32::MAX as nat)->0 as u32,
                name: name,
                state: words[3],
            },
        )
    } else {
        None
    }
}

/// The rows that the lines hold, in their order.
pub open spec fn rows_of(lines: Seq<Seq<char>>) -> Seq<SummaryView>
    decreases lines.len(),
{
    if lines.len() == 0 {
        seq![]
    } else {
        match row_of(lines.last()) {
            Some(row) => rows_of(lines.drop_last()).push(row),
            None => rows_of(lines.drop_last()),
        }
    }
}

/// The rows of the table: those of the lines after the separator.
pub open spec fn table_of(s: Seq<char>) -> Seq<SummaryView> {
    let lines = text::lines_of(s);
    rows_of(lines.skip(heading_len(lines) as int))
}

/// The contents of each of a sequence of rows.
pub open spec fn summary_views(rows: Seq<InterfaceSummary>) -> Seq<SummaryView> {
    rows.map_values(|r: InterfaceSummary| r@)
}

proof fn lemma_nth_word_end_bound(s: Seq<char>, n: nat)
    ensures
        nth_word_end(s, n) <= s.len(),
    decreases s.len(),
{
    if s.len() > 0 && n > 0 {
        text::lemma_word_len_bound(s);
        if text::is_space(s[0]) {
            lemma_nth_word_end_bound(s.skip(1), n);
        } else if n > 1 {
            lemma_nth_word_end_bound(s.skip(text::word_len(s) as int), (n - 1) as nat);
        }
    }
}

/// The position right after the `n`th word, counted from one.
pub fn find_nth_token_end(s: &[char], n: usize) -> (r: usize)
    ensures
        r == nth_word_end(s@, n as nat),
        r <= s@.len(),
{
    proof {
        lemma_nth_word_end_bound(s@, n as nat);
    }
    if n == 0 {
        return s.len();
    }
    let mut at: usize = 0;
    let mut left: usize = n;
    assert(s@.skip(0) =~= s@);
    while at < s.len()
        invariant
            at <= s@.len(),
            left >= 1,
            nth_word_end(s@, n as nat) == at + nth_word_end(s@.skip(at as int), left as nat),
        decreases s@.len() - at,
    {
        let rest = slice_subrange(s, at, s.len());
        assert(rest@ =~= s@.skip(at as int));
        if text::space(s[at]) {
            assert(s@.skip(at as int).skip(1) =~= s@.skip(at + 1));
            at += 1;
        } else {
            let w: usize = text::word_end(rest);
            if left == 1 {
                return at + w;
            }
            assert(w > 0);
            assert(s@.skip(at as int).skip(w as int) =~= s@.skip(at + w));
            at += w;
            left -= 1;
        }
    }
    s.len()
}

/// Tells whether a line sets the heading off from the rows.
fn separator(line: &[char]) -> (r: bool)
    ensures
        r == is_separator(line@),
{
    let mut i: usize = 0;
    let mut dash = false;
    while i < line.len()
        invariant
            i <= line@.len(),
            dash == line@.take(i as int).contains('-'),
            forall|j: int| 0 <= j < i ==> #[trigger] line@[j] == '-' || text::is_space(line@[j]),
        decreases line@.len() - i,
    {
        let ghost before = line@.take(i as int);
        let ghost after = line@.take(i + 1);
        assert(after =~= before.push(line@[i as int]));
        if line[i] == '-' {
            dash = true;
            assert(after[i as int] == '-');
        } else if !text::space(line[i]) {
            assert(line@[i as int] != '-');
            return false;
        } else {
            assert(after.contains('-') ==> before.contains('-')) by {
                if after.contains('-') {
                    let k = choose|k: int| 0 <= k < after.len() && after[k] == '-';
                    assert(before[k] == '-');
                }
            }
            assert(before.contains('-') ==> after.contains('-')) by {
                if before.contains('-') {
                    let k = choose|k: int| 0 <= k < before.len() && before[k] == '-';
                    assert(after[k] == '-');
                }
            }
        }
        i += 1;
    }
    assert(line@.take(line@.len() as int) =~= line@);
    dash
}

/// Reads the row that a line holds.
fn parse_row(line: &[char]) -> (r: Option<InterfaceSummary>)
    ensures
        match r {
            Some(row) => row_of(line@) == Some(row@),
            None => row_of(line@) is None,
        },
{
    let t = text::trim_start(text::trim_end(line));
    let words = text::words(t);
    let ghost v = text::words_of(t@);
    assert(v.len() == words@.len());
    let end: usize = find_nth_token_end(t, 4);
    let tail = slice_subrange(t, end, t.len());
    assert(tail@ =~= t@.skip(end as int));
    let name = text::trim(tail);
    if words.len() < 4 || name.len() == 0 {
        return None;
    }
    assert(words@[0]@ == v[0] && words@[3]@ == v[3]);
    match text::parse_number(words[0], 10, u32::MAX) {
        Some(idx) => Some(
            InterfaceSummary { idx: idx, name: text::string_of(name), state: text::string_of(words[3]) },
        ),
        None => None,
    }
}

/// Reads the table that `netsh interface ipv4 show interfaces` prints. Its
/// columns are `Idx  Met  MTU  State  Name`; the name alone may hold spaces.
pub fn parse_interfaces_table(text: &str) -> (r: Vec<InterfaceSummary>)
    ensures
        summary_views(r@) == table_of(text@),
{
    let all = text::chars_of(text);
    let lines = text::lines(all.as_slice());
    let ghost v = text::lines_of(text@);
    assert(v.len() == lines@.len());
    let mut start: usize = 0;
    let mut found = false;
    assert(v.skip(0) =~= v);
    while start < lines.len() && !found
        invariant
            v == text::views(lines@),
            v.len() == lines@.len(),
            start <= lines@.len(),
            found ==> heading_len(v) == start,
            !found ==> heading_len(v) == start + heading_len(v.skip(start as int)),
        decreases lines@.len() - start,
    {
        assert(lines@[start as int]@ == v[start as int]);
        assert(v.skip(start as int).skip(1) =~= v.skip(start + 1));
        found = separator(lines[start]);
        start += 1;
    }
    let mut rows: Vec<InterfaceSummary> = Vec::new();
    let ghost w = v.skip(start as int);
    let mut i: usize = start;
    assert(summary_views(rows@) =~= rows_of(w.take(0)));
    while i < lines.len()
        invariant
            v == text::views(lines@),
            v.len() == lines@.len(),
            w == v.skip(start as int),
            start <= i <= lines@.len(),
            summary_views(rows@) == rows_of(w.take(i - start)),
        decreases lines@.len() - i,
    {
        let ghost before = rows@;
        assert(lines@[i as int]@ == v[i as int]);
        assert(w.take(i + 1 - start).drop_last() =~= w.take(i - start));
        assert(w.take(i + 1 - start).last() == v[i as int]);
        match parse_row(lines[i]) {
            Some(row) => {
                rows.push(row);
                assert(summary_views(rows@) =~= summary_views(before).push(row@));
            },
            None => {},
        }
        i += 1;
    }
    assert(w.take(i - start) =~= w);
    rows
}

// ---------------------------------------------------------------------------
// The configuration of one interface
// ---------------------------------------------------------------------------

/// The mask in a subnet prefix such as `172.20.10.0/28 (mask 255.255.255.240)`:
/// what stands between `mask ` and the closing bracket, or the end.
pub open spec fn mask_in(s: Seq<char>) -> Option<Seq<char>> {
    if text::occurs(s, "mask "@) {
        let rest = s.skip((text::text_index(s, "mask "@) + "mask "@.len()) as int);
        Some(text::trim_of(rest.take(text::index_of(rest, ')') as int)))
    } else {
        None
    }
}

/// What a line of the report is.
pub enum ReportLine {
    /// Nothing but white space.
    Blank,
    /// The heading, with the name of the interface.
    Title(Seq<char>),
    /// A key and its value, with a colon between them.
    Entry(Seq<char>, Seq<char>),
    /// Text without a key, which goes on with the entry before it.
    More(Seq<char>),
}

/// What the line `raw` of the report is.
pub open spec fn report_line(raw: Seq<char>) -> ReportLine {
    let line = text::trim_end_of(raw);
    let t = text::trim_start_of(line);
    let title = "Configuration for interface"@;
    let colon = text::index_of(line, ':') as int;
    if text::trim_of(line).len() == 0 {
        ReportLine::Blank
    } else if text::starts(t, title) {
        ReportLine::Title(text::trim_char_of(text::trim_of(t.skip(title.len() as int)), '"'))
    } else if t.contains(':') && text::trim_of(t.take(text::index_of(t, ':') as int)).len() > 0 {
        ReportLine::Entry(text::trim_of(line.take(colon)), text::trim_of(line.skip(colon + 1)))
    } else {
        ReportLine::More(t)
    }
}

/// What has been read of a report, and whether the last entry was a list of
/// DNS servers.
pub struct ReadingView {
    pub config: ConfigView,
    pub in_dns: bool,
}

/// What an entry adds to what has been read.
pub open spec fn entry_read(r: ReadingView, key: Seq<char>, value: Seq<char>) -> ReadingView {
    let c = r.config;
    if key == "DHCP enabled"@ {
        ReadingView {
            config: ConfigView { dhcp: text::same_ignoring_case(value, "yes"@), ..c },
            in_dns: false,
        }
    } else if key == "IP Address"@ {
        ReadingView { config: ConfigView { ip: Some(value), ..c }, in_dns: false }
    } else if key == "Subnet Prefix"@ {
        ReadingView { config: ConfigView { mask: mask_in(value), ..c }, in_dns: false }
    } else if key == "Default Gateway"@ {
        ReadingView {
            config: if value.len() > 0 {
                ConfigView { gateway: Some(value), ..c }
            } else {
                c
            },
            in_dns: false,
        }
    } else if key == "DNS servers configured through DHCP"@ || key == "Statically Configured DNS Servers"@ {
        ReadingView {
            config: ConfigView {
                dns: if value.len() > 0 && !text::same_ignoring_case(value, "none"@) {
                    c.dns.push(value)
                } else {
                    c.dns
                },
                static_dns: c.static_dns || key == "Statically Configured DNS Servers"@,
                ..c
            },
            in_dns: true,
        }
    } else {
        ReadingView { config: c, in_dns: false }
    }
}

/// What a line adds to what has been read.
pub open spec fn line_read(r: ReadingView, raw: Seq<char>) -> ReadingView {
    match report_line(raw) {
        ReportLine::Blank => r,
        ReportLine::Title(name) => ReadingView { config: ConfigView { name: name, ..r.config }, in_dns: false },
        ReportLine::Entry(key, value) => entry_read(r, key, value),
        ReportLine::More(t) => if r.in_dns && t != "None"@ {
            ReadingView { config: ConfigView { dns: r.config.dns.push(t), ..r.config }, in_dns: true }
        } else {
            r
        },
    }
}

/// What the lines say of an interface that goes by `name` unless they say
/// otherwise. An interface counts as one that uses DHCP until they deny it.
pub open spec fn report_read(lines: Seq<Seq<char>>, name: Seq<char>) -> ReadingView
    decreases lines.len(),
{
    if lines.len() == 0 {
        ReadingView {
            config: ConfigView {
                name: name,
                dhcp: true,
                ip: None,
                mask: None,
                gateway: None,
                dns: seq![],
                static_dns: false,
            },
            in_dns: false,
        }
    } else {
        line_read(report_read(lines.drop_last(), name), lines.last())
    }
}

/// The configuration that a report describes.
pub open spec fn config_of(s: Seq<char>, name: Seq<char>) -> ConfigView {
    report_read(text::lines_of(s), name).config
}

struct Reading {
    config: InterfaceConfig,
    in_dns: bool,
}

impl View for Reading {
    type V = ReadingView;

    closed spec fn view(&self) -> ReadingView {
        ReadingView { config: self.config@, in_dns: self.in_dns }
    }
}

/// Finds the mask in a subnet prefix.
pub fn extract_mask(subnet_prefix: &str) -> (r: Option<String>)
    ensures
        text::opt_view(r) == mask_in(subnet_prefix@),
{
    let s = text::chars_of(subnet_prefix);
    mask_of(s.as_slice())
}

fn mask_of(s: &[char]) -> (r: Option<String>)
    ensures
        text::opt_view(r) == mask_in(s@),
{
    let label = text::chars_of("mask ");
    match text::find(s, label.as_slice()) {
        Some(i) => {
            let n: usize = s.len();
            let rest = slice_subrange(s, i + label.len(), n);
            let end: usize = text::position(rest, ')');
            let inner = slice_subrange(rest, 0, end);
            assert(rest@ =~= s@.skip(i + "mask "@.len()));
            assert(inner@ =~= rest@.take(end as int));
            Some(text::string_of(text::trim(inner)))
        },
        None => None,
    }
}

fn read_entry(reading: &mut Reading, key: &[char], value: &[char])
    ensures
        final(reading)@ == entry_read(old(reading)@, key@, value@),
{
    let ghost before = reading@;
    if text::is_text(key, "DHCP enabled") {
        let yes = text::chars_of("yes");
        reading.config.dhcp = text::same_nocase(value, yes.as_slice());
        reading.in_dns = false;
    } else if text::is_text(key, "IP Address") {
        reading.config.ip = Some(text::string_of(value));
        reading.in_dns = false;
    } else if text::is_text(key, "Subnet Prefix") {
        reading.config.mask = mask_of(value);
        reading.in_dns = false;
    } else if text::is_text(key, "Default Gateway") {
        if value.len() > 0 {
            reading.config.gateway = Some(text::string_of(value));
        }
        reading.in_dns = false;
    } else if text::is_text(key, "DNS servers configured through DHCP") || text::is_text(
        key,
        "Statically Configured DNS Servers",
    ) {
        reading.in_dns = true;
        if text::is_text(key, "Statically Configured DNS Servers") {
            reading.config.static_dns = true;
        }
        let none = text::chars_of("none");
        if value.len() > 0 && !text::same_nocase(value, none.as_slice()) {
            reading.config.dns.push(text::string_of(value));
            assert(reading@.config.dns =~= before.config.dns.push(value@));
        }
    } else {
        reading.in_dns = false;
    }
}

fn read_line(reading: &mut Reading, raw: &[char])
    ensures
        final(reading)@ == line_read(old(reading)@, raw@),
{
    let ghost before = reading@;
    let line = text::trim_end(raw);
    if text::trim(line).len() == 0 {
        return;
    }
    let t = text::trim_start(line);
    let title = text::chars_of("Configuration for interface");
    if text::starts_with(t, title.as_slice()) {
        let rest = slice_subrange(t, title.len(), t.len());
        assert(rest@ =~= t@.skip(title@.len() as int));
        reading.config.name = text::string_of(text::trim_char(text::trim(rest), '"'));
        reading.in_dns = false;
        return;
    }
    let c: usize = text::position(t, ':');
    let head = slice_subrange(t, 0, c);
    assert(head@ =~= t@.take(c as int));
    if c < t.len() && text::trim(head).len() > 0 {
        let colon: usize = text::position(line, ':');
        proof {
            lemma_trim_start_part(line@, ':');
        }
        let n: usize = line.len();
        let key = slice_subrange(line, 0, colon);
        let value = slice_subrange(line, colon + 1, n);
        assert(key@ =~= line@.take(colon as int));
        assert(value@ =~= line@.skip(colon + 1));
        read_entry(reading, text::trim(key), text::trim(value));
        return;
    }
    if reading.in_dns && !text::is_text(t, "None") {
        reading.config.dns.push(text::string_of(t));
        assert(reading@.config.dns =~= before.config.dns.push(t@));
    }
}

proof fn lemma_trim_start_part(s: Seq<char>, c: char)
    ensures
        text::trim_start_of(s).contains(c) ==> s.contains(c),
    decreases s.len(),
{
    if s.len() > 0 && text::is_space(s[0]) {
        lemma_trim_start_part(s.skip(1), c);
        if s.skip(1).contains(c) {
            let k = choose|k: int| 0 <= k < s.skip(1).len() && s.skip(1)[k] == c;
            assert(s[k + 1] == c);
        }
    }
}

/// Reads what `netsh interface ip show config` prints of one interface. Every
/// text has a reading, so the result is never an error.
pub fn parse_show_config(text: &str, fallback_name: &str) -> (r: Result<InterfaceConfig, String>)
    ensures
        r is Ok,
        r->Ok_0@ == config_of(text@, fallback_name@),
{
    let all = text::chars_of(text);
    let lines = text::lines(all.as_slice());
    let ghost v = text::lines_of(text@);
    assert(v.len() == lines@.len());
    let mut reading = Reading {
        config: InterfaceConfig {
            name: fallback_name.to_owned(),
            dhcp: true,
            ip: None,
            mask: None,
            gateway: None,
            dns: Vec::new(),
            static_dns: false,
        },
        in_dns: false,
    };
    let mut i: usize = 0;
    assert(reading@.config.dns =~= seq![]);
    assert(reading@ == report_read(v.take(0), fallback_name@));
    while i < lines.len()
        invariant
            v == text::views(lines@),
            v.len() == lines@.len(),
            i <= lines@.len(),
            reading@ == report_read(v.take(i as int), fallback_name@),
        decreases lines@.len() - i,
    {
        assert(lines@[i as int]@ == v[i as int]);
        assert(v.take(i + 1).drop_last() =~= v.take(i as int));
        read_line(&mut reading, lines[i]);
        i += 1;
    }
    assert(v.take(i as int) =~= v);
    Ok(reading.config)
}

// ---------------------------------------------------------------------------
// Asking the system
// ---------------------------------------------------------------------------

/// What came of a `netsh` command: what it printed, or why it failed. `shown`
/// is the list of its arguments as messages show it.
pub open spec fn netsh_output(shown: Seq<char>, outcome: Outcome) -> Result<Seq<char>, Seq<char>> {
    match outcome {
        Outcome::NotStarted(e) => Err("failed to launch netsh: "@ + e@),
        Outcome::Ended { success, stdout, stderr } => if success {
            Ok(stdout@)
        } else {
            Err("netsh "@ + shown + " failed: "@ + stderr@ + stdout@)
        },
    }
}

/// Tells what came of a `netsh` command.
pub fn run_netsh(shown: &str, outcome: Outcome) -> (r: Result<String, String>)
    ensures
        match netsh_output(shown@, outcome) {
            Ok(out) => r matches Ok(s) && s@ == out,
            Err(e) => r matches Err(m) && m@ == e,
        },
{
    match outcome {
        Outcome::NotStarted(e) => {
            let mut message = "failed to launch netsh: ".to_owned();
            message.append(e.as_str());
            Err(message)
        },
        Outcome::Ended { success, stdout, stderr } => {
            if success {
                return Ok(stdout);
            }
            let mut message = "netsh ".to_owned();
            message.append(shown);
            message.append(" failed: ");
            message.append(stderr.as_str());
            message.append(stdout.as_str());
            Err(message)
        },
    }
}

/// The arguments to `netsh` that print the table of interfaces.
pub fn list_interfaces_args() -> (r: Vec<String>)
    ensures
        text::string_views(r@) == seq!["interface"@, "ipv4"@, "show"@, "interfaces"@],
{
    let out = vec!["interface".to_owned(), "ipv4".to_owned(), "show".to_owned(), "interfaces".to_owned()];
    assert(text::string_views(out@) =~= seq!["interface"@, "ipv4"@, "show"@, "interfaces"@]);
    out
}

/// The interfaces of the system, from what came of the command that prints
/// them.
pub fn list_interfaces(shown: &str, outcome: Outcome) -> (r: Result<Vec<InterfaceSummary>, String>)
    ensures
        match netsh_output(shown@, outcome) {
            Ok(out) => r matches Ok(rows) && summary_views(rows@) == table_of(out),
            Err(e) => r matches Err(m) && m@ == e,
        },
{
    match run_netsh(shown, outcome) {
        Ok(out) => Ok(parse_interfaces_table(out.as_str())),
        Err(e) => Err(e),
    }
}

/// The arguments to `netsh` that print the configuration of an interface.
pub fn get_interface_config_args(name: &str) -> (r: Vec<String>)
    ensures
        text::string_views(r@) == seq!["interface"@, "ip"@, "show"@, "config"@, "name="@ + name@],
{
    let mut target = "name=".to_owned();
    target.append(name);
    let out = vec!["interface".to_owned(), "ip".to_owned(), "show".to_owned(), "config".to_owned(), target];
    assert(text::string_views(out@) =~= seq!["interface"@, "ip"@, "show"@, "config"@, "name="@ + name@]);
    out
}

/// The configuration of the interface `name`, from what came of the command
/// that prints it.
pub fn get_interface_config(name: &str, shown: &str, outcome: Outcome) -> (r: Result<InterfaceConfig, String>)
    ensures
        match netsh_output(shown@, outcome) {
            Ok(out) => r matches Ok(config) && config@ == config_of(out, name@),
            Err(e) => r matches Err(m) && m@ == e,
        },
{
    match run_netsh(shown, outcome) {
        Ok(out) => parse_show_config(out.as_str(), name),
        Err(e) => Err(e),
    }
}

/// The number of the interface with this name in the table: that of the first
/// such row.
pub open spec fn index_named(rows: Seq<SummaryView>, name: Seq<char>) -> Option<u32>
    decreases rows.len(),
{
    if rows.len() == 0 {
        None
    } else if rows[0].name == name {
        Some(rows[0].idx)
    } else {
        index_named(rows.skip(1), name)
    }
}

/// Finds the number of the interface with this name.
pub fn find_index(rows: &[InterfaceSummary], name: &str) -> (r: Option<u32>)
    ensures
        r == index_named(summary_views(rows@), name@),
{
    let ghost v = summary_views(rows@);
    let mut i: usize = 0;
    assert(v.skip(0) =~= v);
    while i < rows.len()
        invariant
            v == summary_views(rows@),
            i <= rows@.len(),
            index_named(v, name@) == index_named(v.skip(i as int), name@),
        decreases rows@.len() - i,
    {
        assert(v.skip(i as int)[0] == rows@[i as int]@);
        assert(v.skip(i as int).skip(1) =~= v.skip(i + 1));
        if text::str_same(rows[i].name.as_str(), name) {
            return Some(rows[i].idx);
        }
        i += 1;
    }
    None
}

// ---------------------------------------------------------------------------
// Laws
// ---------------------------------------------------------------------------

/// Every interface that is listed has a name, without white space around it.
pub proof fn lemma_rows(lines: Seq<Seq<char>>, k: int)
    requires
        0 <= k < rows_of(lines).len(),
    ensures
        rows_of(lines)[k].name.len() > 0,
        !text::is_space(rows_of(lines)[k].name[0]),
        !text::is_space(rows_of(lines)[k].name.last()),
    decreases lines.len(),
{
    let init = rows_of(lines.drop_last());
    if k < init.len() {
        lemma_rows(lines.drop_last(), k);
        assert(rows_of(lines)[k] == init[k]);
    } else {
        let t = text::trim_start_of(text::trim_end_of(lines.last()));
        text::lemma_trimmed_ends(t.skip(nth_word_end(t, 4) as int));
    }
}

/// What each entry of a report sets: the value of its key, and nothing else. A
/// gateway that is blank is none, and a name server that is blank or `none` is
/// not added; those that were set by hand are marked as such.
pub proof fn lemma_entry(r: ReadingView, key: Seq<char>, value: Seq<char>)
    ensures
        ({
            let after = entry_read(r, key, value);
            let by_hand = key == "Statically Configured DNS Servers"@;
            let servers = by_hand || key == "DNS servers configured through DHCP"@;
            &&& after.config.name == r.config.name
            &&& after.config.dhcp == (if key == "DHCP enabled"@ {
                text::same_ignoring_case(value, "yes"@)
            } else {
                r.config.dhcp
            })
            &&& after.config.ip == (if key == "IP Address"@ {
                Some(value)
            } else {
                r.config.ip
            })
            &&& after.config.mask == (if key == "Subnet Prefix"@ {
                mask_in(value)
            } else {
                r.config.mask
            })
            &&& after.config.gateway == (if key == "Default Gateway"@ && value.len() > 0 {
                Some(value)
            } else {
                r.config.gateway
            })
            &&& after.config.dns == (if servers && value.len() > 0 && !text::same_ignoring_case(value, "none"@) {
                r.config.dns.push(value)
            } else {
                r.config.dns
            })
            &&& after.config.static_dns == (r.config.static_dns || by_hand)
            &&& after.in_dns == servers
        }),
{
    reveal_strlit("DHCP enabled");
    reveal_strlit("IP Address");
    reveal_strlit("Subnet Prefix");
    reveal_strlit("Default Gateway");
    reveal_strlit("DNS servers configured through DHCP");
    reveal_strlit("Statically Configured DNS Servers");
    assert("DHCP enabled"@.len() == 12);
    assert("IP Address"@.len() == 10);
    assert("Subnet Prefix"@.len() == 13);
    assert("Default Gateway"@.len() == 15);
    assert("DNS servers configured through DHCP"@.len() == 35);
    assert("Statically Configured DNS Servers"@.len() == 33);
}

/// A line with a key and a value, with a colon between them and white space
/// around them, is an entry with that key and that value.
pub proof fn lemma_entry_line(
    before: Seq<char>,
    key: Seq<char>,
    between: Seq<char>,
    value: Seq<char>,
    after: Seq<char>,
)
    requires
        forall|i: int| 0 <= i < before.len() ==> text::is_space(#[trigger] before[i]),
        forall|i: int| 0 <= i < between.len() ==> text::is_space(#[trigger] between[i]),
        forall|i: int| 0 <= i < after.len() ==> text::is_space(#[trigger] after[i]),
        key.len() > 0,
        !key.contains(':'),
        !text::is_space(key[0]),
        !text::is_space(key.last()),
        value.len() > 0,
        !text::is_space(value[0]),
        !text::is_space(value.last()),
        !text::starts(key.push(':') + between + value, "Configuration for interface"@),
    ensures
        report_line(before + key + seq![':'] + between + value + after) == ReportLine::Entry(key, value),
{
    let raw = before + key + seq![':'] + between + value + after;
    let t = key.push(':') + between + value;
    let line = before + t;
    assert(raw =~= line + after);
    assert(t.last() == value.last() && t[0] == key[0] && line.last() == value.last());
    text::lemma_trim_end_over(line, after);
    text::lemma_trim_between(before, t, Seq::empty());
    assert(before + t + Seq::<char>::empty() =~= line);
    assert forall|j: int| 0 <= j < key.len() implies t[j] != ':' by {
        assert(t[j] == key[j]);
    }
    assert(t[key.len() as int] == ':');
    text::lemma_index_of(t, ':', key.len() as int);
    assert(t.take(key.len() as int) =~= key);
    text::lemma_trim_fixed(key);
    let n = before.len() + key.len();
    assert forall|j: int| 0 <= j < n implies line[j] != ':' by {
        if j < before.len() {
            assert(line[j] == before[j]);
            assert(text::is_space(before[j]));
        } else {
            assert(line[j] == key[j - before.len()]);
        }
    }
    assert(line[n as int] == ':');
    text::lemma_index_of(line, ':', n as int);
    assert(line.take(n as int) =~= before + key + Seq::<char>::empty());
    text::lemma_trim_between(before, key, Seq::empty());
    assert(line.skip(n as int + 1) =~= between + value + Seq::<char>::empty());
    text::lemma_trim_between(between, value, Seq::empty());
}

/// A report is read line by line. A line that goes on with a list of name
/// servers adds one; blank lines and what goes on with anything else add
/// nothing; and a title names the interface. What no line says stays as it is
/// at the beginning: DHCP, and nothing else.
pub proof fn lemma_report_one_more(lines: Seq<Seq<char>>, line: Seq<char>, name: Seq<char>)
    ensures
        ({
            let before = report_read(lines, name);
            let after = report_read(lines.push(line), name);
            let none = report_read(seq![], name).config;
            &&& match report_line(line) {
                ReportLine::Blank => after == before,
                ReportLine::Title(title) => !after.in_dns && after.config == (ConfigView {
                    name: title,
                    ..before.config
                }),
                ReportLine::Entry(key, value) => after == entry_read(before, key, value),
                ReportLine::More(t) => if before.in_dns && t != "None"@ {
                    after.in_dns && after.config == (ConfigView { dns: before.config.dns.push(t), ..before.config })
                } else {
                    after == before
                },
            }
            &&& none.name == name && none.dhcp && none.ip is None && none.mask is None && none.gateway is None
            &&& none.dns.len() == 0 && !none.static_dns
        }),
{
    assert(lines.push(line).drop_last() =~= lines);
}

/// The mask in a subnet prefix stands between `mask ` and the closing bracket.
pub proof fn lemma_mask_in(before: Seq<char>, mask: Seq<char>, after: Seq<char>)
    requires
        text::first_at(before + "mask "@ + mask + seq![')'] + after, "mask "@, before.len() as int),
        !mask.contains(')'),
    ensures
        mask_in(before + "mask "@ + mask + seq![')'] + after) == Some(text::trim_of(mask)),
{
    let label = "mask "@;
    let s = before + label + mask + seq![')'] + after;
    text::lemma_text_index(s, label, before.len() as int);
    assert(text::occurs(s, label));
    let rest = s.skip((before.len() + label.len()) as int);
    assert(rest =~= mask.push(')') + after);
    let n = mask.len() as int;
    assert forall|j: int| 0 <= j < n implies rest[j] != ')' by {
        assert(rest[j] == mask[j]);
    }
    assert(rest[n] == ')');
    text::lemma_index_of(rest, ')', n);
    assert(rest.take(n) =~= mask);
}

/// A row of the table of interfaces has five columns: the number, two that are
/// of no account, the state, and the name, which alone may hold spaces.
pub proof fn lemma_table_row(
    idx: Seq<char>,
    metric: Seq<char>,
    mtu: Seq<char>,
    state: Seq<char>,
    name: Seq<char>,
    space: char,
)
    requires
        text::is_space(space),
        is_word(idx),
        is_word(metric),
        is_word(mtu),
        is_word(state),
        name.len() > 0,
        !text::is_space(name[0]),
        !text::is_space(name.last()),
    ensures
        ({
            let line = idx.push(space) + (metric.push(space) + (mtu.push(space) + (state.push(space) + name)));
            match (row_of(line), text::number(idx, 10, u32::MAX as nat)) {
                (Some(row), Some(n)) => row.idx == n && row.name == name && row.state == state,
                (None, None) => true,
                _ => false,
            }
        }),
{
    let r4 = name;
    let r3 = state.push(space) + r4;
    let r2 = mtu.push(space) + r3;
    let r1 = metric.push(space) + r2;
    let line = idx.push(space) + r1;
    assert(r3.last() == name.last());
    assert(r2.last() == name.last());
    assert(r1.last() == name.last());
    assert(line.last() == name.last() && line[0] == idx[0]);
    assert(!text::is_space(idx[0]));
    assert(text::trim_end_of(line) == line);
    assert(text::trim_start_of(line) == line);
    text::lemma_words(state, space, r4);
    text::lemma_words(mtu, space, r3);
    text::lemma_words(metric, space, r2);
    text::lemma_words(idx, space, r1);
    let words = text::words_of(line);
    assert(words =~= seq![idx, metric, mtu, state] + text::words_of(name));
    lemma_word_end(state, space, r4, 1);
    lemma_word_end(mtu, space, r3, 2);
    lemma_word_end(metric, space, r2, 3);
    lemma_word_end(idx, space, r1, 4);
    let end = nth_word_end(line, 4) as int;
    assert(end == idx.len() + 1 + metric.len() + 1 + mtu.len() + 1 + state.len());
    assert(line.skip(end) =~= seq![space] + name + Seq::<char>::empty());
    text::lemma_trim_between(seq![space], name, Seq::empty());
}

/// A text that is one word.
pub open spec fn is_word(s: Seq<char>) -> bool {
    s.len() > 0 && forall|i: int| 0 <= i < s.len() ==> !text::is_space(#[trigger] s[i])
}

proof fn lemma_word_end(word: Seq<char>, space: char, rest: Seq<char>, n: nat)
    requires
        is_word(word),
        text::is_space(space),
        n > 0,
    ensures
        nth_word_end(word.push(space) + rest, n) == if n == 1 {
            word.len()
        } else {
            word.len() + 1 + nth_word_end(rest, (n - 1) as nat)
        },
{
    let s = word.push(space) + rest;
    let k = word.len() as int;
    assert(s[0] == word[0]);
    assert(!text::is_space(word[0]));
    assert forall|j: int| 0 <= j < k implies !text::is_space(#[trigger] s[j]) by {
        assert(s[j] == word[j]);
    }
    assert(s[k] == space);
    text::lemma_word_len(s, k);
    assert(s.skip(k) =~= seq![space] + rest);
    assert((seq![space] + rest)[0] == space);
    assert((seq![space] + rest).skip(1) =~= rest);
    if n > 1 {
        let more = (n - 1) as nat;
        assert(nth_word_end(seq![space] + rest, more) == 1 + nth_word_end(rest, more));
    }
}

/// The rows are those of the lines after the first that is made of dashes, in
/// their order; a line without a row adds nothing.
pub proof fn lemma_row_one_more(lines: Seq<Seq<char>>, line: Seq<char>, rest: Seq<Seq<char>>)
    ensures
        rows_of(lines.push(line)) == match row_of(line) {
            Some(row) => rows_of(lines).push(row),
            None => rows_of(lines),
        },
        rows_of(seq![]).len() == 0,
        heading_len(seq![line] + rest) == if is_separator(line) {
            1
        } else {
            1 + heading_len(rest)
        },
        heading_len(seq![]) == 0,
{
    assert(lines.push(line).drop_last() =~= lines);
    assert((seq![line] + rest).skip(1) =~= rest);
}

/// The number that goes with a name is that of the first row that has it.
pub proof fn lemma_index_named(rows: Seq<SummaryView>, name: Seq<char>)
    ensures
        match index_named(rows, name) {
            Some(idx) => exists|i: int|
                {
                    &&& 0 <= i < rows.len()
                    &&& (#[trigger] rows[i]).name == name
                    &&& rows[i].idx == idx
                    &&& forall|j: int| 0 <= j < i ==> (#[trigger] rows[j]).name != name
                },
            None => forall|j: int| 0 <= j < rows.len() ==> (#[trigger] rows[j]).name != name,
        },
    decreases rows.len(),
{
    if rows.len() > 0 {
        if rows[0].name == name {
            assert(rows[0].idx == index_named(rows, name)->0);
        } else {
            let rest = rows.skip(1);
            lemma_index_named(rest, name);
            match index_named(rest, name) {
                Some(idx) => {
                    let i = choose|i: int|
                        {
                            &&& 0 <= i < rest.len()
                            &&& (#[trigger] rest[i]).name == name
                            &&& rest[i].idx == idx
                            &&& forall|j: int| 0 <= j < i ==> (#[trigger] rest[j]).name != name
                        };
                    assert(rows[i + 1] == rest[i]);
                    assert forall|j: int| 0 <= j < i + 1 implies (#[trigger] rows[j]).name != name by {
                        if j > 0 {
                            assert(rows[j] == rest[j - 1]);
                        }
                    }
                },
                None => {
                    assert forall|j: int| 0 <= j < rows.len() implies (#[trigger] rows[j]).name != name by {
                        if j > 0 {
                            assert(rows[j] == rest[j - 1]);
                        }
                    }
                },
            }
        }
    }
}

/// A command gives what it printed exactly where it reported success; else the
/// reason tells what it printed, or why it could not be started.
pub proof fn lemma_netsh_output(shown: Seq<char>, outcome: Outcome)
    ensures
        match netsh_output(shown, outcome) {
            Ok(out) => outcome matches Outcome::Ended { success, stdout, stderr } && success && out == stdout@,
            Err(e) => match outcome {
                Outcome::NotStarted(reason) => e == "failed to launch netsh: "@ + reason@,
                Outcome::Ended { success, stdout, stderr } => !success && e == "netsh "@ + shown + " failed: "@ + stderr@
                    + stdout@,
            },
        },
{
}

} // verus!
