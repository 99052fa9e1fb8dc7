//! What the user works on: the adapter that is selected, whether its settings
//! have been changed, and when changes are taken back by themselves. Every
//! request of the user is judged here before anything is done.
use crate::autodetect;
use crate::autodetect::{AutoDetectEvent, DetectView, Detector, EventView};
use crate::netconfig;
use crate::netconfig::{BackupFile, Step};
use crate::netiface::{ConfigView, InterfaceConfig};
use crate::process;
use crate::scanner;
use crate::subnets;
use crate::subnets::{CustomSubnet, Toggle};
use crate::text;
use crate::validate;
use vstd::prelude::*;

verus! {

/// A message that the user has to close, by its title and its text.
#[derive(Debug, Clone, PartialEq)]
pub struct Dialog {
    pub title: String,
    pub text: String,
}

/// The contents of a `Dialog`.
pub struct DialogView {
    pub title: Seq<char>,
    pub text: Seq<char>,
}

impl View for Dialog {
    type V = DialogView;

    open spec fn view(&self) -> DialogView {
        DialogView { title: self.title@, text: self.text@ }
    }
}

fn dialog(title: &str, text: &str) -> (r: Dialog)
    ensures
        r@ == (DialogView { title: title@, text: text@ }),
{
    Dialog { title: title.to_owned(), text: text.to_owned() }
}

/// What is said where an adapter has to be picked first.
pub open spec fn no_adapter() -> DialogView {
    DialogView { title: "No adapter selected"@, text: "Pick an adapter first."@ }
}

// ---------------------------------------------------------------------------
// Showing a configuration
// ---------------------------------------------------------------------------

/// A configuration in one line.
pub open spec fn summary_of(config: ConfigView) -> Seq<char> {
    if config.dhcp {
        match (config.ip, config.gateway) {
            (Some(ip), Some(gateway)) => "DHCP: "@ + ip + " (gateway "@ + gateway + ")"@,
            (Some(ip), None) => "DHCP: "@ + ip,
            (None, _) => "DHCP: (no address / disconnected)"@,
        }
    } else {
        match (config.ip, config.mask) {
            (Some(ip), Some(mask)) => "Static: "@ + ip + " / "@ + mask + " (gateway "@ + (match config.gateway {
                Some(gateway) => gateway,
                None => "(none)"@,
            }) + ")"@,
            _ => "Static: (unconfigured)"@,
        }
    }
}

/// Puts a configuration into one line.
pub fn summarize(config: &InterfaceConfig) -> (r: String)
    ensures
        r@ == summary_of(config@),
{
    let mut out = String::new();
    if config.dhcp {
        match (&config.ip, &config.gateway) {
            (Some(ip), Some(gateway)) => {
                out.append("DHCP: ");
                out.append(ip.as_str());
                out.append(" (gateway ");
                out.append(gateway.as_str());
                out.append(")");
            },
            (Some(ip), None) => {
                out.append("DHCP: ");
                out.append(ip.as_str());
            },
            (None, _) => {
                out.append("DHCP: (no address / disconnected)");
            },
        }
    } else {
        match (&config.ip, &config.mask) {
            (Some(ip), Some(mask)) => {
                out.append("Static: ");
                out.append(ip.as_str());
                out.append(" / ");
                out.append(mask.as_str());
                out.append(" (gateway ");
                match &config.gateway {
                    Some(gateway) => {
                        out.append(gateway.as_str());
                    },
                    None => {
                        out.append("(none)");
                    },
                }
                out.append(")");
            },
            _ => {
                out.append("Static: (unconfigured)");
            },
        }
    }
    assert(out@ =~= summary_of(config@));
    out
}

/// How often a configuration is read before it is taken as it is.
pub const MAX_ATTEMPTS: u32 = 6;

/// Tells whether a configuration is to be read once more, after `attempts`
/// readings: an interface that has just been changed can be without an
/// address for a moment.
pub fn read_again(attempts: u32, read: &Result<InterfaceConfig, String>) -> (r: bool)
    ensures
        r == (attempts < MAX_ATTEMPTS && (read matches Ok(config) && config@.ip is None)),
{
    match read {
        Ok(config) => attempts < MAX_ATTEMPTS && config.ip.is_none(),
        Err(_) => false,
    }
}

/// What the window shows of a configuration: a line, and the contents of the
/// three fields.
#[derive(Debug, Clone, PartialEq)]
pub struct Shown {
    pub line: String,
    pub ip: String,
    pub mask: String,
    pub gateway: String,
}

/// The mask that is shown where none is known.
pub const DEFAULT_MASK: &'static str = "255.255.255.0";

fn text_or(value: &Option<String>, default: &str) -> (r: String)
    ensures
        r@ == (match text::opt_view(*value) {
            Some(t) => t,
            None => default@,
        }),
{
    match value {
        Some(t) => t.clone(),
        None => default.to_owned(),
    }
}

/// What to show after a configuration was read. The fields never keep what
/// they held for another adapter: what is not known is shown blank, or as the
/// usual mask.
pub fn refresh_current_config_display(read: &Result<InterfaceConfig, String>) -> (r: Shown)
    ensures
        match read {
            Ok(config) => {
                &&& r.line@ == summary_of(config@)
                &&& r.ip@ == netconfig::or_empty(config@.ip)
                &&& r.mask@ == (match config@.mask {
                    Some(mask) => mask,
                    None => DEFAULT_MASK@,
                })
                &&& r.gateway@ == netconfig::or_empty(config@.gateway)
            },
            Err(e) => {
                &&& r.line@ == "Could not read config: "@ + e@
                &&& r.ip@.len() == 0
                &&& r.mask@ == DEFAULT_MASK@
                &&& r.gateway@.len() == 0
            },
        },
{
    match read {
        Ok(config) => {
            proof {
                reveal_strlit("");
                assert(""@ =~= seq![]);
            }
            Shown {
                line: summarize(config),
                ip: text_or(&config.ip, ""),
                mask: text_or(&config.mask, DEFAULT_MASK),
                gateway: text_or(&config.gateway, ""),
            }
        },
        Err(e) => {
            let mut line = "Could not read config: ".to_owned();
            line.append(e.as_str());
            Shown { line: line, ip: String::new(), mask: DEFAULT_MASK.to_owned(), gateway: String::new() }
        },
    }
}

/// The first three octets of an address, with dots between them.
pub open spec fn base_text(octets: Seq<u8>) -> Seq<char> {
    text::decimal(octets[0] as nat).push('.') + (text::decimal(octets[1] as nat).push('.') + text::decimal(
        octets[2] as nat,
    ))
}

/// The subnet of an address, by its first three octets; none where the address
/// is not valid.
pub open spec fn base_in(ip: Seq<char>) -> Option<Seq<char>> {
    match validate::ipv4_result(ip) {
        Ok(octets) => Some(base_text(octets)),
        Err(_) => None,
    }
}

/// Writes the subnet of an address.
pub fn base_of(ip: &str) -> (r: Option<String>)
    ensures
        text::opt_view(r) == base_in(ip@),
{
    match validate::parse_ipv4(ip) {
        Ok(octets) => {
            let mut out = String::new();
            text::push_decimal(&mut out, octets[0] as u64);
            out.push('.');
            text::push_decimal(&mut out, octets[1] as u64);
            out.push('.');
            text::push_decimal(&mut out, octets[2] as u64);
            assert(out@ =~= base_text(octets@));
            Some(out)
        },
        Err(_) => None,
    }
}

// ---------------------------------------------------------------------------
// The session
// ---------------------------------------------------------------------------

/// After so many milliseconds a change is taken back by itself.
pub const AUTO_REVERT_MS: u64 = 180_000;

/// An adapter and the time, in milliseconds, at which its change is taken
/// back.
#[derive(Debug, Clone, PartialEq)]
pub struct Deadline {
    pub iface: String,
    pub at: u64,
}

/// The contents of each of a list of deadlines.
pub open spec fn deadline_views(deadlines: Seq<Deadline>) -> Seq<(Seq<char>, nat)> {
    deadlines.map_values(|d: Deadline| (d.iface@, d.at as nat))
}

/// No adapter has two deadlines.
pub open spec fn distinct(deadlines: Seq<(Seq<char>, nat)>) -> bool {
    forall|i: int, j: int|
        0 <= i < j < deadlines.len() ==> (#[trigger] deadlines[i]).0 != (#[trigger] deadlines[j]).0
}

/// The deadlines of the other adapters.
pub open spec fn without_adapter(deadlines: Seq<(Seq<char>, nat)>, iface: Seq<char>) -> Seq<(Seq<char>, nat)>
    decreases deadlines.len(),
{
    if deadlines.len() == 0 {
        seq![]
    } else if deadlines.last().0 == iface {
        without_adapter(deadlines.drop_last(), iface)
    } else {
        without_adapter(deadlines.drop_last(), iface).push(deadlines.last())
    }
}

/// The adapters whose time has come.
pub open spec fn due_by(deadlines: Seq<(Seq<char>, nat)>, now: nat) -> Seq<Seq<char>>
    decreases deadlines.len(),
{
    if deadlines.len() == 0 {
        seq![]
    } else if deadlines.last().1 <= now {
        due_by(deadlines.drop_last(), now).push(deadlines.last().0)
    } else {
        due_by(deadlines.drop_last(), now)
    }
}

/// The deadlines that are still to come.
pub open spec fn left_after(deadlines: Seq<(Seq<char>, nat)>, now: nat) -> Seq<(Seq<char>, nat)>
    decreases deadlines.len(),
{
    if deadlines.len() == 0 {
        seq![]
    } else if deadlines.last().1 <= now {
        left_after(deadlines.drop_last(), now)
    } else {
        left_after(deadlines.drop_last(), now).push(deadlines.last())
    }
}

/// The earliest of the deadlines.
pub open spec fn earliest(deadlines: Seq<(Seq<char>, nat)>) -> nat
    decreases deadlines.len(),
{
    if deadlines.len() <= 1 || deadlines.last().1 < earliest(deadlines.drop_last()) {
        deadlines.last().1
    } else {
        earliest(deadlines.drop_last())
    }
}

/// The line that counts the seconds, begun ones included, until the next
/// change is taken back; blank where none is.
pub open spec fn countdown(deadlines: Seq<(Seq<char>, nat)>, now: nat) -> Seq<char> {
    if deadlines.len() == 0 {
        seq![]
    } else {
        "Reverting automatically in "@ + text::decimal(((earliest(deadlines) - now) / 1000 + 1) as nat)
            + "s unless you click Keep."@
    }
}

/// What a session knows.
pub struct SessionView {
    /// The adapter that is selected.
    pub selected: Option<Seq<char>>,
    /// Its settings can be taken back.
    pub applied: bool,
    /// There is something to keep.
    pub can_keep: bool,
    /// The changes that are taken back by themselves.
    pub deadlines: Seq<(Seq<char>, nat)>,
}

impl SessionView {
    /// A session at its beginning.
    pub open spec fn begun() -> SessionView {
        SessionView { selected: None, applied: false, can_keep: false, deadlines: seq![] }
    }

    /// No adapter has two deadlines.
    pub open spec fn ok(self) -> bool {
        distinct(self.deadlines)
    }

    /// An adapter has been selected; `has_backup` tells whether there is a
    /// backup of it.
    pub open spec fn chosen(self, iface: Seq<char>, has_backup: bool) -> SessionView {
        SessionView { selected: Some(iface), applied: has_backup, ..self }
    }

    /// The settings of an adapter have been changed at the time `now`.
    pub open spec fn changed(self, iface: Seq<char>, now: nat) -> SessionView {
        SessionView {
            applied: self.applied || self.selected == Some(iface),
            can_keep: true,
            deadlines: without_adapter(self.deadlines, iface).push((iface, now + AUTO_REVERT_MS as nat)),
            ..self
        }
    }

    /// The settings are kept: nothing is taken back by itself.
    pub open spec fn kept(self) -> SessionView {
        SessionView { deadlines: seq![], ..self }
    }

    /// The settings of an adapter have been taken back.
    pub open spec fn undone(self, iface: Seq<char>) -> SessionView {
        let left = without_adapter(self.deadlines, iface);
        SessionView {
            applied: self.applied && self.selected != Some(iface),
            can_keep: left.len() > 0,
            deadlines: left,
            ..self
        }
    }

    /// Time has gone on to `now`.
    pub open spec fn ticked(self, now: nat) -> SessionView {
        SessionView { deadlines: left_after(self.deadlines, now), ..self }
    }
}

/// What is to be done as time goes on: the adapters whose settings are taken
/// back now, and the line that counts down, where it changes.
#[derive(Debug, Clone, PartialEq)]
pub struct Tick {
    pub due: Vec<String>,
    pub line: Option<String>,
}

/// What the user works on.
pub struct Session {
    selected: Option<String>,
    applied: bool,
    can_keep: bool,
    deadlines: Vec<Deadline>,
}

impl View for Session {
    type V = SessionView;

    closed spec fn view(&self) -> SessionView {
        SessionView {
            selected: text::opt_view(self.selected),
            applied: self.applied,
            can_keep: self.can_keep,
            deadlines: deadline_views(self.deadlines@),
        }
    }
}

/// The deadlines of the other adapters.
fn drop_adapter(deadlines: &Vec<Deadline>, iface: &str) -> (r: Vec<Deadline>)
    ensures
        deadline_views(r@) == without_adapter(deadline_views(deadlines@), iface@),
{
    let ghost v = deadline_views(deadlines@);
    let mut out: Vec<Deadline> = Vec::new();
    let mut i: usize = 0;
    assert(deadline_views(out@) =~= without_adapter(v.take(0), iface@));
    while i < deadlines.len()
        invariant
            v == deadline_views(deadlines@),
            i <= deadlines@.len(),
            deadline_views(out@) == without_adapter(v.take(i as int), iface@),
        decreases deadlines@.len() - i,
    {
        let ghost before = out@;
        assert(v.take(i + 1).drop_last() =~= v.take(i as int));
        assert(v[i as int] == (deadlines@[i as int].iface@, deadlines@[i as int].at as nat));
        if !text::str_same(deadlines[i].iface.as_str(), iface) {
            let d = Deadline { iface: deadlines[i].iface.clone(), at: deadlines[i].at };
            out.push(d);
            assert(deadline_views(out@) =~= deadline_views(before).push(v[i as int]));
        }
        i += 1;
    }
    assert(v.take(i as int) =~= v);
    out
}

proof fn lemma_without_adapter(deadlines: Seq<(Seq<char>, nat)>, iface: Seq<char>)
    ensures
        forall|i: int|
            0 <= i < without_adapter(deadlines, iface).len() ==> {
                &&& (#[trigger] without_adapter(deadlines, iface)[i]).0 != iface
                &&& deadlines.contains(without_adapter(deadlines, iface)[i])
            },
        forall|i: int|
            0 <= i < deadlines.len() && (#[trigger] deadlines[i]).0 != iface ==> without_adapter(
                deadlines,
                iface,
            ).contains(deadlines[i]),
        distinct(deadlines) ==> distinct(without_adapter(deadlines, iface)),
    decreases deadlines.len(),
{
    if deadlines.len() > 0 {
        let init = deadlines.drop_last();
        let last = deadlines.last();
        lemma_without_adapter(init, iface);
        let all = without_adapter(deadlines, iface);
        let some = without_adapter(init, iface);
        assert forall|i: int| 0 <= i < all.len() implies (#[trigger] all[i]).0 != iface && deadlines.contains(
            all[i],
        ) by {
            if i < some.len() {
                assert(all[i] == some[i]);
                let k = choose|k: int| 0 <= k < init.len() && init[k] == some[i];
                assert(deadlines[k] == all[i]);
            } else {
                assert(deadlines[deadlines.len() - 1] == all[i]);
            }
        }
        assert forall|i: int| 0 <= i < deadlines.len() && (#[trigger] deadlines[i]).0 != iface implies all.contains(
            deadlines[i],
        ) by {
            if i < init.len() {
                assert(init[i] == deadlines[i]);
                let k = choose|k: int| 0 <= k < some.len() && some[k] == init[i];
                assert(all[k] == deadlines[i]);
            } else {
                assert(all[all.len() - 1] == deadlines[i]);
            }
        }
        if distinct(deadlines) {
            assert(distinct(init)) by {
                assert forall|i: int, j: int| 0 <= i < j < init.len() implies (#[trigger] init[i]).0
                    != (#[trigger] init[j]).0 by {
                    assert(init[i] == deadlines[i] && init[j] == deadlines[j]);
                }
            }
            assert forall|i: int, j: int| 0 <= i < j < all.len() implies (#[trigger] all[i]).0
                != (#[trigger] all[j]).0 by {
                if j < some.len() {
                    assert(all[i] == some[i] && all[j] == some[j]);
                } else {
                    assert(all[i] == some[i]);
                    let k = choose|k: int| 0 <= k < init.len() && init[k] == some[i];
                    assert(deadlines[k] == all[i]);
                    assert(deadlines[deadlines.len() - 1] == all[j]);
                }
            }
        }
    }
}

proof fn lemma_left_after(deadlines: Seq<(Seq<char>, nat)>, now: nat)
    ensures
        forall|i: int|
            0 <= i < left_after(deadlines, now).len() ==> {
                &&& (#[trigger] left_after(deadlines, now)[i]).1 > now
                &&& deadlines.contains(left_after(deadlines, now)[i])
            },
        forall|i: int|
            0 <= i < deadlines.len() ==> if (#[trigger] deadlines[i]).1 <= now {
                due_by(deadlines, now).contains(deadlines[i].0)
            } else {
                left_after(deadlines, now).contains(deadlines[i])
            },
        forall|i: int|
            0 <= i < due_by(deadlines, now).len() ==> exists|k: int|
                0 <= k < deadlines.len() && (#[trigger] deadlines[k]).1 <= now && deadlines[k].0
                    == #[trigger] due_by(deadlines, now)[i],
        distinct(deadlines) ==> distinct(left_after(deadlines, now)),
    decreases deadlines.len(),
{
    if deadlines.len() > 0 {
        let init = deadlines.drop_last();
        let last = deadlines.last();
        lemma_left_after(init, now);
        let all = left_after(deadlines, now);
        let some = left_after(init, now);
        let due = due_by(deadlines, now);
        let due_before = due_by(init, now);
        assert forall|i: int| 0 <= i < all.len() implies (#[trigger] all[i]).1 > now && deadlines.contains(all[i]) by {
            if i < some.len() {
                assert(all[i] == some[i]);
                let k = choose|k: int| 0 <= k < init.len() && init[k] == some[i];
                assert(deadlines[k] == all[i]);
            } else {
                assert(deadlines[deadlines.len() - 1] == all[i]);
            }
        }
        assert forall|i: int| 0 <= i < deadlines.len() implies if (#[trigger] deadlines[i]).1 <= now {
            due.contains(deadlines[i].0)
        } else {
            all.contains(deadlines[i])
        } by {
            if i < init.len() {
                assert(init[i] == deadlines[i]);
                if init[i].1 <= now {
                    let k = choose|k: int| 0 <= k < due_before.len() && due_before[k] == init[i].0;
                    assert(due[k] == init[i].0);
                } else {
                    let k = choose|k: int| 0 <= k < some.len() && some[k] == init[i];
                    assert(all[k] == init[i]);
                }
            } else if last.1 <= now {
                assert(due[due.len() - 1] == last.0);
            } else {
                assert(all[all.len() - 1] == last);
            }
        }
        assert forall|i: int| 0 <= i < due.len() implies exists|k: int|
            0 <= k < deadlines.len() && (#[trigger] deadlines[k]).1 <= now && deadlines[k].0 == #[trigger] due[i] by {
            if i < due_before.len() {
                assert(due[i] == due_before[i]);
                let k = choose|k: int|
                    0 <= k < init.len() && (#[trigger] init[k]).1 <= now && init[k].0 == due_before[i];
                assert(deadlines[k] == init[k]);
            } else {
                assert(deadlines[deadlines.len() - 1].0 == due[i]);
            }
        }
        if distinct(deadlines) {
            assert(distinct(init)) by {
                assert forall|i: int, j: int| 0 <= i < j < init.len() implies (#[trigger] init[i]).0
                    != (#[trigger] init[j]).0 by {
                    assert(init[i] == deadlines[i] && init[j] == deadlines[j]);
                }
            }
            assert forall|i: int, j: int| 0 <= i < j < all.len() implies (#[trigger] all[i]).0
                != (#[trigger] all[j]).0 by {
                if j < some.len() {
                    assert(all[i] == some[i] && all[j] == some[j]);
                } else {
                    assert(all[i] == some[i]);
                    let k = choose|k: int| 0 <= k < init.len() && init[k] == some[i];
                    assert(deadlines[k] == all[i]);
                    assert(deadlines[deadlines.len() - 1] == all[j]);
                }
            }
        }
    }
}

impl Session {
    /// A session in which nothing has been done.
    pub fn new() -> (r: Session)
        ensures
            r@ == SessionView::begun(),
            r@.ok(),
    {
        let r = Session { selected: None, applied: false, can_keep: false, deadlines: Vec::new() };
        assert(r@.deadlines =~= seq![]);
        r
    }

    /// The adapter that is selected.
    pub fn current_iface(&self) -> (r: Option<String>)
        ensures
            text::opt_view(r) == self@.selected,
    {
        match &self.selected {
            Some(name) => Some(name.clone()),
            None => None,
        }
    }

    /// Tells whether the settings of the selected adapter can be taken back.
    pub fn is_applied(&self) -> (r: bool)
        ensures
            r == self@.applied,
    {
        self.applied
    }

    /// Tells whether there is something to keep.
    pub fn can_keep(&self) -> (r: bool)
        ensures
            r == self@.can_keep,
    {
        self.can_keep
    }

    fn is_selected(&self, iface: &str) -> (r: bool)
        ensures
            r == (self@.selected == Some(iface@)),
    {
        match &self.selected {
            Some(name) => text::str_same(name.as_str(), iface),
            None => false,
        }
    }

    /// Selects an adapter; `has_backup` tells whether there is a backup of it.
    pub fn on_iface_selected(&mut self, name: &str, has_backup: bool)
        ensures
            final(self)@ == old(self)@.chosen(name@, has_backup),
    {
        self.selected = Some(name.to_owned());
        self.applied = has_backup;
    }

    /// Takes note, after every backup has been tried, of whether there is one
    /// left of the selected adapter.
    pub fn backups_reverted(&mut self, has_backup: bool)
        ensures
            final(self)@ == if old(self)@.selected is Some {
                (SessionView { applied: has_backup, ..old(self)@ })
            } else {
                old(self)@
            },
    {
        if self.selected.is_some() {
            self.applied = has_backup;
        }
    }

    /// Takes note that the settings of an adapter have been changed at the
    /// time `now`.
    pub fn settings_applied(&mut self, iface: &str, now: u64)
        requires
            old(self)@.ok(),
            now <= u64::MAX - AUTO_REVERT_MS,
        ensures
            final(self)@ == old(self)@.changed(iface@, now as nat),
            final(self)@.ok(),
    {
        let mut left = drop_adapter(&self.deadlines, iface);
        let ghost before = left@;
        proof {
            lemma_without_adapter(deadline_views(self.deadlines@), iface@);
        }
        let d = Deadline { iface: iface.to_owned(), at: now + AUTO_REVERT_MS };
        left.push(d);
        assert(deadline_views(left@) =~= deadline_views(before).push((d.iface@, d.at as nat)));
        self.deadlines = left;
        if self.is_selected(iface) {
            self.applied = true;
        }
        self.can_keep = true;
    }

    /// Keeps the settings.
    pub fn on_keep(&mut self)
        ensures
            final(self)@ == old(self)@.kept(),
            final(self)@.ok(),
    {
        self.deadlines = Vec::new();
        assert(self@.deadlines =~= seq![]);
    }

    /// Takes note that the settings of an adapter have been taken back.
    pub fn settings_reverted(&mut self, iface: &str)
        requires
            old(self)@.ok(),
        ensures
            final(self)@ == old(self)@.undone(iface@),
            final(self)@.ok(),
    {
        let left = drop_adapter(&self.deadlines, iface);
        proof {
            lemma_without_adapter(deadline_views(self.deadlines@), iface@);
        }
        if self.is_selected(iface) {
            self.applied = false;
        }
        assert(deadline_views(left@).len() == left@.len());
        self.can_keep = left.len() > 0;
        self.deadlines = left;
    }

    /// Takes note of the time.
    pub fn tick_revert_countdown(&mut self, now: u64) -> (r: Tick)
        requires
            old(self)@.ok(),
        ensures
            final(self)@ == old(self)@.ticked(now as nat),
            final(self)@.ok(),
            text::string_views(r.due@) == due_by(old(self)@.deadlines, now as nat),
            text::opt_view(r.line) == if old(self)@.deadlines.len() == 0 {
                None
            } else {
                Some(countdown(left_after(old(self)@.deadlines, now as nat), now as nat))
            },
    {
        let ghost v = deadline_views(self.deadlines@);
        let mut due: Vec<String> = Vec::new();
        let mut left: Vec<Deadline> = Vec::new();
        let mut first: u64 = 0;
        let mut i: usize = 0;
        assert(text::string_views(due@) =~= due_by(v.take(0), now as nat));
        assert(deadline_views(left@) =~= left_after(v.take(0), now as nat));
        while i < self.deadlines.len()
            invariant
                *self == *old(self),
                v == deadline_views(self.deadlines@),
                i <= self.deadlines@.len(),
                text::string_views(due@) == due_by(v.take(i as int), now as nat),
                deadline_views(left@) == left_after(v.take(i as int), now as nat),
                left@.len() > 0 ==> first == earliest(deadline_views(left@)),
            decreases self.deadlines@.len() - i,
        {
            let ghost before_due = due@;
            let ghost before = left@;
            let iface = self.deadlines[i].iface.clone();
            let at: u64 = self.deadlines[i].at;
            assert(v.take(i + 1).drop_last() =~= v.take(i as int));
            assert(v[i as int] == (iface@, at as nat));
            if at <= now {
                due.push(iface);
                assert(text::string_views(due@) =~= text::string_views(before_due).push(iface@));
            } else {
                if left.len() == 0 || at < first {
                    first = at;
                }
                left.push(Deadline { iface: iface, at: at });
                assert(deadline_views(left@) =~= deadline_views(before).push(v[i as int]));
                assert(deadline_views(left@).drop_last() =~= deadline_views(before));
            }
            i += 1;
        }
        assert(v.take(i as int) =~= v);
        proof {
            lemma_left_after(v, now as nat);
        }
        let line = if self.deadlines.len() == 0 {
            None
        } else if left.len() == 0 {
            let blank = String::new();
            assert(blank@ =~= seq![]);
            Some(blank)
        } else {
            proof {
                lemma_earliest(deadline_views(left@));
            }
            let mut out = "Reverting automatically in ".to_owned();
            text::push_decimal(&mut out, (first - now) / 1000 + 1);
            out.append("s unless you click Keep.");
            Some(out)
        };
        self.deadlines = left;
        Tick { due: due, line: line }
    }
}

proof fn lemma_earliest(deadlines: Seq<(Seq<char>, nat)>)
    requires
        deadlines.len() > 0,
    ensures
        forall|i: int| 0 <= i < deadlines.len() ==> earliest(deadlines) <= (#[trigger] deadlines[i]).1,
        exists|i: int| 0 <= i < deadlines.len() && earliest(deadlines) == (#[trigger] deadlines[i]).1,
    decreases deadlines.len(),
{
    let last = deadlines.len() - 1;
    assert(deadlines[last] == deadlines.last());
    if last > 0 {
        let init = deadlines.drop_last();
        lemma_earliest(init);
        assert forall|i: int| 0 <= i < deadlines.len() implies earliest(deadlines) <= (#[trigger] deadlines[i]).1 by {
            if i < last {
                assert(deadlines[i] == init[i]);
            }
        }
        let k = choose|k: int| 0 <= k < init.len() && earliest(init) == (#[trigger] init[k]).1;
        assert(deadlines[k] == init[k]);
    }
}

// ---------------------------------------------------------------------------
// Changing and taking back settings
// ---------------------------------------------------------------------------

/// What comes of the request to apply settings: nothing is done without an
/// adapter or with settings that are not valid.
pub open spec fn apply_answer(
    selected: Option<Seq<char>>,
    ip: Seq<char>,
    mask: Seq<char>,
    gateway: Seq<char>,
    has_backup: bool,
) -> Result<(Seq<char>, Seq<netconfig::StepView>), DialogView> {
    match selected {
        None => Err(no_adapter()),
        Some(iface) => match validate::config_result(ip, mask, gateway) {
            Err(e) => Err(DialogView { title: "Invalid settings"@, text: e }),
            Ok(_) => Ok((iface, netconfig::apply_steps(iface, ip, mask, gateway, has_backup))),
        },
    }
}

/// What comes of a request: the adapter it is about and the steps to take, or
/// the reason for which nothing is done.
pub open spec fn plan_view(
    r: Result<(String, Vec<Step>), Dialog>,
) -> Result<(Seq<char>, Seq<netconfig::StepView>), DialogView> {
    match r {
        Ok((iface, steps)) => Ok((iface@, netconfig::step_views(steps@))),
        Err(d) => Err(d@),
    }
}

/// Judges the request to apply settings to the selected adapter; `has_backup`
/// tells whether there is a backup of it.
pub fn on_apply(session: &Session, ip: &str, mask: &str, gateway: &str, has_backup: bool) -> (r: Result<
    (String, Vec<Step>),
    Dialog,
>)
    ensures
        plan_view(r) == apply_answer(session@.selected, ip@, mask@, gateway@, has_backup),
{
    let iface = match session.current_iface() {
        Some(name) => name,
        None => {
            return Err(dialog("No adapter selected", "Pick an adapter first."));
        },
    };
    match validate::validate_static_config(ip, mask, gateway) {
        Err(e) => Err(dialog("Invalid settings", e.as_str())),
        Ok(_) => {
            let steps = netconfig::plan_apply(iface.as_str(), ip, mask, gateway, has_backup);
            Ok((iface, steps))
        },
    }
}

/// What is said where a step to apply settings, or one that leads up to a
/// search, has failed.
pub fn apply_failed(step: &Step, error: &str) -> (r: Dialog)
    ensures
        r@ == (DialogView {
            title: if step is SaveBackup {
                "Could not save backup"@
            } else {
                "Apply failed"@
            },
            text: error@,
        }),
{
    match step {
        Step::SaveBackup => dialog("Could not save backup", error),
        _ => dialog("Apply failed", error),
    }
}

fn around_name(before: &str, iface: &str, after: &str) -> (r: String)
    ensures
        r@ == before@ + iface@ + after@,
{
    let mut out = before.to_owned();
    out.append(iface);
    out.append(after);
    out
}

/// What is said once settings have been applied.
pub fn applied_status(iface: &str) -> (r: String)
    ensures
        r@ == "Applied static config to '"@ + iface@ + "'."@,
{
    around_name("Applied static config to '", iface, "'.")
}

/// What is said once settings have been taken back.
pub fn reverted_status(iface: &str) -> (r: String)
    ensures
        r@ == "Reverted '"@ + iface@ + "' to its original settings."@,
{
    around_name("Reverted '", iface, "' to its original settings.")
}

/// Each failure on a line: the adapter and the reason.
pub open spec fn failure_lines(failures: Seq<(Seq<char>, Seq<char>)>) -> Seq<Seq<char>> {
    failures.map_values(|f: (Seq<char>, Seq<char>)| f.0 + ": "@ + f.1)
}

/// What is said after every backup has been tried: nothing, unless some could
/// not be put back.
pub open spec fn failures_dialog(failures: Seq<(Seq<char>, Seq<char>)>) -> Option<DialogView> {
    if failures.len() == 0 {
        None
    } else {
        Some(
            DialogView {
                title: "Could not fully revert"@,
                text: "Some adapters could not be reverted automatically:\n\n"@ + text::join_with(
                    failure_lines(failures),
                    "\n"@,
                ),
            },
        )
    }
}

/// Puts together what is said of the adapters that could not be put back, each
/// with the reason.
pub fn revert_all_backups_silently(failures: &[(String, String)]) -> (r: Option<Dialog>)
    ensures
        match r {
            Some(d) => failures_dialog(scanner::pair_views(failures@)) == Some(d@),
            None => failures_dialog(scanner::pair_views(failures@)) is None,
        },
{
    if failures.len() == 0 {
        return None;
    }
    let ghost v = scanner::pair_views(failures@);
    let ghost all = failure_lines(v);
    let mut lines: Vec<String> = Vec::new();
    let mut i: usize = 0;
    assert(text::string_views(lines@) =~= all.take(0));
    while i < failures.len()
        invariant
            v == scanner::pair_views(failures@),
            all == failure_lines(v),
            i <= failures@.len(),
            text::string_views(lines@) == all.take(i as int),
        decreases failures@.len() - i,
    {
        let ghost before = lines@;
        let line = around_name(failures[i].0.as_str(), ": ", failures[i].1.as_str());
        lines.push(line);
        assert(v[i as int] == (failures@[i as int].0@, failures@[i as int].1@));
        assert(text::string_views(lines@) =~= text::string_views(before).push(all[i as int]));
        assert(all.take(i + 1) =~= all.take(i as int).push(all[i as int]));
        i += 1;
    }
    assert(all.take(i as int) =~= all);
    let mut body = "Some adapters could not be reverted automatically:\n\n".to_owned();
    let joined = text::join_strings(lines.as_slice(), "\n");
    body.append(joined.as_str());
    Some(dialog("Could not fully revert", body.as_str()))
}

/// The names of the adapters that backups are of.
pub open spec fn adapter_names(backups: Seq<BackupFile>) -> Seq<Seq<char>> {
    backups.map_values(|b: BackupFile| b.config.name@)
}

/// How far it has come that every adapter is put back of which there is a
/// backup.
pub struct RevertAllView {
    /// The adapters, in the order in which they are tried.
    pub names: Seq<Seq<char>>,
    /// How many have been tried.
    pub tried: nat,
    /// Those that could not be put back, each with the reason.
    pub failures: Seq<(Seq<char>, Seq<char>)>,
}

impl RevertAllView {
    /// None has been tried yet.
    pub open spec fn begun(names: Seq<Seq<char>>) -> RevertAllView {
        RevertAllView { names: names, tried: 0, failures: seq![] }
    }

    /// No more have been tried than there are.
    pub open spec fn ok(self) -> bool {
        self.tried <= self.names.len()
    }

    /// The adapter to put back now.
    pub open spec fn due(self) -> Option<Seq<char>> {
        if self.tried < self.names.len() {
            Some(self.names[self.tried as int])
        } else {
            None
        }
    }

    /// The present adapter has been tried: whatever came of it, the next one
    /// is due, and a failure is remembered.
    pub open spec fn reported(self, result: Result<(), Seq<char>>) -> RevertAllView {
        RevertAllView {
            tried: self.tried + 1,
            failures: match result {
                Ok(_) => self.failures,
                Err(e) => self.failures.push((self.names[self.tried as int], e)),
            },
            ..self
        }
    }
}

/// What is shown once every adapter has been tried.
#[derive(Debug, Clone, PartialEq)]
pub enum Ending {
    /// There was none: nothing is shown.
    Nothing,
    /// All are back: this line is shown.
    Status(String),
    /// Some are not.
    Failed(Dialog),
}

/// The contents of an `Ending`.
pub enum EndingView {
    Nothing,
    Status(Seq<char>),
    Failed(DialogView),
}

impl View for Ending {
    type V = EndingView;

    open spec fn view(&self) -> EndingView {
        match self {
            Ending::Nothing => EndingView::Nothing,
            Ending::Status(s) => EndingView::Status(s@),
            Ending::Failed(d) => EndingView::Failed(d@),
        }
    }
}

/// What is shown once every adapter has been tried, where `status` is the line
/// for success.
pub open spec fn ending_of(all: RevertAllView, status: Seq<char>) -> EndingView {
    if all.names.len() == 0 {
        EndingView::Nothing
    } else {
        match failures_dialog(all.failures) {
            Some(d) => EndingView::Failed(d),
            None => EndingView::Status(status),
        }
    }
}

/// Puts back every adapter of which there is a backup, one after the other.
pub struct RevertAll {
    names: Vec<String>,
    tried: usize,
    failures: Vec<(String, String)>,
}

impl View for RevertAll {
    type V = RevertAllView;

    closed spec fn view(&self) -> RevertAllView {
        RevertAllView {
            names: text::string_views(self.names@),
            tried: self.tried as nat,
            failures: scanner::pair_views(self.failures@),
        }
    }
}

impl RevertAll {
    /// Begins with the adapters that these backups are of.
    pub fn new(backups: &[BackupFile]) -> (r: RevertAll)
        ensures
            r@ == RevertAllView::begun(adapter_names(backups@)),
            r@.ok(),
    {
        let ghost all = adapter_names(backups@);
        let mut names: Vec<String> = Vec::new();
        let mut i: usize = 0;
        assert(text::string_views(names@) =~= all.take(0));
        while i < backups.len()
            invariant
                all == adapter_names(backups@),
                i <= backups@.len(),
                text::string_views(names@) == all.take(i as int),
            decreases backups@.len() - i,
        {
            let ghost before = names@;
            names.push(backups[i].config.name.clone());
            assert(text::string_views(names@) =~= text::string_views(before).push(all[i as int]));
            assert(all.take(i + 1) =~= all.take(i as int).push(all[i as int]));
            i += 1;
        }
        assert(all.take(i as int) =~= all);
        let r = RevertAll { names: names, tried: 0, failures: Vec::new() };
        assert(r@.failures =~= seq![]);
        r
    }

    /// The adapter to put back now, if one is left.
    pub fn current(&self) -> (r: Option<String>)
        ensures
            text::opt_view(r) == self@.due(),
    {
        if self.tried < self.names.len() {
            assert(self@.names[self.tried as int] == self.names@[self.tried as int]@);
            Some(self.names[self.tried].clone())
        } else {
            None
        }
    }

    /// Takes note of what came of the present adapter.
    pub fn report(&mut self, result: Result<(), String>)
        requires
            old(self)@.due() is Some,
        ensures
            final(self)@ == old(self)@.reported(process::result_view(result)),
            final(self)@.ok(),
    {
        let n: usize = self.names.len();
        assert(self.tried < n);
        let ghost before = self@;
        match result {
            Ok(_) => {},
            Err(e) => {
                let name = self.names[self.tried].clone();
                self.failures.push((name, e));
                assert(self@.failures =~= before.failures.push((before.names[before.tried as int], e@)));
            },
        }
        self.tried = self.tried + 1;
    }

    /// What is shown once every adapter has been tried, where `status` is the
    /// line for success.
    pub fn ending(&self, status: &str) -> (r: Ending)
        requires
            self@.due() is None,
        ensures
            r@ == ending_of(self@, status@),
    {
        if self.names.len() == 0 {
            return Ending::Nothing;
        }
        match revert_all_backups_silently(self.failures.as_slice()) {
            Some(d) => Ending::Failed(d),
            None => Ending::Status(status.to_owned()),
        }
    }
}

// ---------------------------------------------------------------------------
// Saved subnets
// ---------------------------------------------------------------------------

/// The reason for which a subnet cannot be saved, if there is one.
pub open spec fn save_refused(ip: Seq<char>, mask: Seq<char>) -> Option<DialogView> {
    if base_in(ip) is None {
        Some(DialogView { title: "No subnet to save"@, text: "Enter a valid IP address first."@ })
    } else {
        match validate::mask_result(mask) {
            Err(e) => Some(DialogView { title: "Invalid subnet mask"@, text: e }),
            Ok(_) => None,
        }
    }
}

/// Saves the subnet of an address, or removes it if it is saved already, and
/// tells which of the two was done, for which subnet. The list is then to be
/// stored.
pub fn on_save_subnet(list: &mut Vec<CustomSubnet>, ip: &str, mask: &str) -> (r: Result<(Toggle, String), Dialog>)
    ensures
        match r {
            Ok((toggle, base)) => {
                &&& save_refused(ip@, mask@) is None
                &&& Some(base@) == base_in(ip@)
                &&& subnets::subnet_views(final(list)@) == subnets::toggled(
                    subnets::subnet_views(old(list)@),
                    base@,
                    mask@,
                )
                &&& toggle is Removed <==> subnets::listed(subnets::subnet_views(old(list)@), base@, mask@)
                &&& toggle is Added ==> final(list)@.len() > 0 && final(list)@.drop_last() == old(list)@
            },
            Err(d) => save_refused(ip@, mask@) == Some(d@) && final(list)@ == old(list)@,
        },
{
    let base = match base_of(ip) {
        Some(base) => base,
        None => {
            return Err(dialog("No subnet to save", "Enter a valid IP address first."));
        },
    };
    match validate::parse_mask(mask) {
        Err(e) => {
            return Err(dialog("Invalid subnet mask", e.as_str()));
        },
        Ok(_) => {},
    }
    let ghost before = list@;
    let toggle = subnets::toggle(list, base.as_str(), mask);
    assert(subnets::subnet_views(list@).len() == list@.len());
    Ok((toggle, base))
}

/// What is said once the list of subnets has been stored, `count` entries
/// long.
pub open spec fn stored_status(toggle: Toggle, base: Seq<char>, mask: Seq<char>, count: nat) -> Seq<char> {
    match toggle {
        Toggle::Removed => "Removed "@ + base + ".0/24 ("@ + mask + ") from saved subnets ("@ + text::decimal(count)
            + " remaining)."@,
        Toggle::Added => "Saved "@ + base + ".0/24 ("@ + mask
            + ") \u{2014} tried first on every auto-detect from now on. Click Save subnet again with the same values to remove it. ("@
            + text::decimal(count) + " saved total)"@,
    }
}

/// Takes note of whether the list of subnets could be stored after a change:
/// an entry that could not be stored leaves the list again.
pub fn subnet_stored(
    list: &mut Vec<CustomSubnet>,
    toggle: Toggle,
    base: &str,
    mask: &str,
    stored: Result<(), String>,
) -> (r: Result<String, Dialog>)
    requires
        toggle is Added ==> old(list)@.len() > 0,
    ensures
        match stored {
            Ok(_) => {
                &&& final(list)@ == old(list)@
                &&& r matches Ok(status) && status@ == stored_status(toggle, base@, mask@, old(list)@.len())
            },
            Err(e) => {
                &&& final(list)@ == if toggle is Added {
                    old(list)@.drop_last()
                } else {
                    old(list)@
                }
                &&& r matches Err(d) && d@ == (DialogView {
                    title: if toggle is Added {
                        "Could not save subnet"@
                    } else {
                        "Could not update saved subnets"@
                    },
                    text: e@,
                })
            },
        },
{
    match stored {
        Ok(_) => {
            let count: usize = list.len();
            let mut out = String::new();
            match toggle {
                Toggle::Removed => {
                    out.append("Removed ");
                    out.append(base);
                    out.append(".0/24 (");
                    out.append(mask);
                    out.append(") from saved subnets (");
                    text::push_decimal(&mut out, count as u64);
                    out.append(" remaining).");
                },
                Toggle::Added => {
                    out.append("Saved ");
                    out.append(base);
                    out.append(".0/24 (");
                    out.append(mask);
                    out.append(
                        ") \u{2014} tried first on every auto-detect from now on. Click Save subnet again with the same values to remove it. (",
                    );
                    text::push_decimal(&mut out, count as u64);
                    out.append(" saved total)");
                },
            }
            assert(out@ =~= stored_status(toggle, base@, mask@, list@.len()));
            Ok(out)
        },
        Err(e) => match toggle {
            Toggle::Added => {
                list.pop();
                assert(list@ =~= old(list)@.drop_last());
                Err(dialog("Could not save subnet", e.as_str()))
            },
            Toggle::Removed => Err(dialog("Could not update saved subnets", e.as_str())),
        },
    }
}

// ---------------------------------------------------------------------------
// Searching and scanning
// ---------------------------------------------------------------------------

/// What comes of a request to search or to scan.
#[derive(Debug, Clone, PartialEq)]
pub enum Answer {
    /// It cannot be done.
    Refused(Dialog),
    /// One of the two is going on already: nothing is done.
    Busy,
    /// It can be done, on this adapter or subnet.
    Go(String),
}

/// The contents of an `Answer`.
pub enum AnswerView {
    Refused(DialogView),
    Busy,
    Go(Seq<char>),
}

impl View for Answer {
    type V = AnswerView;

    open spec fn view(&self) -> AnswerView {
        match self {
            Answer::Refused(d) => AnswerView::Refused(d@),
            Answer::Busy => AnswerView::Busy,
            Answer::Go(s) => AnswerView::Go(s@),
        }
    }
}

/// Judges the request to search for the subnet of a device on the selected
/// adapter.
pub fn on_autodetect(session: &Session, searching: bool, scanning: bool) -> (r: Answer)
    ensures
        r@ == match session@.selected {
            None => AnswerView::Refused(no_adapter()),
            Some(iface) => if searching || scanning {
                AnswerView::Busy
            } else {
                AnswerView::Go(iface)
            },
        },
{
    match session.current_iface() {
        None => Answer::Refused(dialog("No adapter selected", "Pick an adapter first.")),
        Some(iface) => if searching || scanning {
            Answer::Busy
        } else {
            Answer::Go(iface)
        },
    }
}

/// Begins a search over the saved subnets and then the common ones, unless
/// there is no backup to go back to: `stored` is what was read from the backup
/// file of the adapter.
pub fn begin_search(stored: Option<BackupFile>, saved: &[CustomSubnet]) -> (r: Result<Detector, Dialog>)
    ensures
        match netconfig::usable(netconfig::backup_view(stored)) {
            Some(_) => r matches Ok(search) && search@.ok() && search@ == DetectView::begun(
                autodetect::candidate_list(subnets::subnet_views(saved@)),
            ),
            None => r matches Err(d) && d@ == (DialogView {
                title: "Error"@,
                text: "Backup missing unexpectedly."@,
            }),
        },
{
    match netconfig::load_backup(stored) {
        Some(_) => Ok(Detector::new(autodetect::candidates(saved))),
        None => Err(dialog("Error", "Backup missing unexpectedly.")),
    }
}

/// What the window shows after an event of a search: a line, the contents of
/// the two fields where they change, and whether a device was found.
#[derive(Debug, Clone, PartialEq)]
pub struct Effects {
    pub status: String,
    pub ip: Option<String>,
    pub mask: Option<String>,
    pub found: bool,
}

/// The line that is shown after an event of a search.
pub open spec fn event_status(event: EventView) -> Seq<char> {
    match event {
        EventView::TryingCandidate { base, mask } => "Trying "@ + base + ".0/24..."@,
        EventView::CandidateResult { base, host_count } => base + ".0/24: "@ + text::decimal(host_count)
            + " response(s)."@,
        EventView::Found { base, mask } => "Found live device(s) on "@ + base
            + ".0/24 \u{2014} review below, then Apply to keep it or Revert to undo."@,
        EventView::NotFound => "No devices found on common subnets. Enter values manually."@,
        EventView::Cancelled => "Auto-detect cancelled; original settings restored."@,
        EventView::Error(e) => "Auto-detect error: "@ + e,
    }
}

/// Tells what to show after an event of a search.
pub fn drain_autodetect_events(event: &AutoDetectEvent) -> (r: Effects)
    ensures
        r.status@ == event_status(event@),
        r.found == (event is Found),
        match event@ {
            EventView::Found { base, mask } => text::opt_view(r.ip) == Some(autodetect::probe_of(base))
                && text::opt_view(r.mask) == Some(mask),
            _ => r.ip is None && r.mask is None,
        },
{
    let mut status = String::new();
    match event {
        AutoDetectEvent::TryingCandidate { base, mask } => {
            status.append("Trying ");
            status.append(base.as_str());
            status.append(".0/24...");
        },
        AutoDetectEvent::CandidateResult { base, host_count } => {
            status.append(base.as_str());
            status.append(".0/24: ");
            text::push_decimal(&mut status, *host_count as u64);
            status.append(" response(s).");
        },
        AutoDetectEvent::Found { base, mask } => {
            status.append("Found live device(s) on ");
            status.append(base.as_str());
            status.append(".0/24 \u{2014} review below, then Apply to keep it or Revert to undo.");
            assert(status@ =~= event_status(event@));
            return Effects {
                status: status,
                ip: Some(autodetect::probe_ip(base.as_str())),
                mask: Some(mask.clone()),
                found: true,
            };
        },
        AutoDetectEvent::NotFound => {
            status.append("No devices found on common subnets. Enter values manually.");
        },
        AutoDetectEvent::Cancelled => {
            status.append("Auto-detect cancelled; original settings restored.");
        },
        AutoDetectEvent::Error(e) => {
            status.append("Auto-detect error: ");
            status.append(e.as_str());
        },
    }
    assert(status@ =~= event_status(event@));
    Effects { status: status, ip: None, mask: None, found: false }
}

/// Judges the request to scan the subnet of an address.
pub fn on_scan(scanning: bool, searching: bool, ip: &str) -> (r: Answer)
    ensures
        r@ == if scanning || searching {
            AnswerView::Busy
        } else {
            match base_in(ip@) {
                Some(base) => AnswerView::Go(base),
                None => AnswerView::Refused(
                    DialogView {
                        title: "No base subnet"@,
                        text: "Enter an IP address first (its first 3 octets are used as the /24 to scan)."@,
                    },
                ),
            }
        },
{
    if scanning || searching {
        return Answer::Busy;
    }
    match base_of(ip) {
        Some(base) => Answer::Go(base),
        None => Answer::Refused(
            dialog(
                "No base subnet",
                "Enter an IP address first (its first 3 octets are used as the /24 to scan).",
            ),
        ),
    }
}

// ---------------------------------------------------------------------------
// Laws
// ---------------------------------------------------------------------------

/// The subnet of every valid address is one that can be swept: reading its
/// text gives the first three octets of the address.
pub proof fn lemma_base(ip: Seq<char>)
    requires
        base_in(ip) is Some,
    ensures
        validate::ipv4_result(ip) matches Ok(octets) && scanner::base_octets(base_in(ip)->0) == Some(octets.take(3)),
{
    let octets = validate::ipv4_result(ip)->Ok_0;
    let a = text::decimal(octets[0] as nat);
    let b = text::decimal(octets[1] as nat);
    let c = text::decimal(octets[2] as nat);
    lemma_no_dot(octets[0]);
    lemma_no_dot(octets[1]);
    lemma_no_dot(octets[2]);
    text::lemma_split_single(c, '.');
    text::lemma_split_first(b, '.', c);
    text::lemma_split_first(a, '.', b.push('.') + c);
    let parts = text::split_on(base_text(octets), '.');
    assert(parts =~= seq![a, b, c]);
    assert(scanner::base_octets(base_text(octets))->0 =~= octets.take(3));
}

proof fn lemma_no_dot(b: u8)
    ensures
        !text::decimal(b as nat).contains('.'),
        text::number(text::decimal(b as nat), 10, 255) == Some(b as nat),
{
    let d = text::decimal(b as nat);
    text::lemma_decimal(b as nat);
    text::lemma_number_of_decimal(b as nat, 255);
    assert forall|i: int| 0 <= i < d.len() implies d[i] != '.' by {
        assert(text::is_digit(d[i]));
    }
}

/// A change is taken back by itself once the time is up, and not before: until
/// then its deadline stands however often the time is noted.
pub proof fn lemma_auto_revert(s: SessionView, iface: Seq<char>, start: nat, now: nat)
    requires
        s.ok(),
    ensures
        due_by(s.changed(iface, start).deadlines, now).contains(iface) <==> now >= start + AUTO_REVERT_MS,
        now < start + AUTO_REVERT_MS ==> s.changed(iface, start).ticked(now).deadlines.contains(
            (iface, start + AUTO_REVERT_MS as nat),
        ),
        s.changed(iface, start).ok(),
{
    let others = without_adapter(s.deadlines, iface);
    let all = s.changed(iface, start).deadlines;
    let at = (start + AUTO_REVERT_MS) as nat;
    let due = due_by(all, now);
    lemma_without_adapter(s.deadlines, iface);
    lemma_left_after(all, now);
    assert(all[others.len() as int] == (iface, at));
    if due.contains(iface) {
        let i = choose|i: int| 0 <= i < due.len() && due[i] == iface;
        let k = choose|k: int| 0 <= k < all.len() && (#[trigger] all[k]).1 <= now && all[k].0 == due[i];
        if k < others.len() {
            assert(all[k] == others[k]);
        }
    }
}

/// A change whose time is not up yet stays due at its time while other
/// adapters are changed or taken back, another one is selected, or time goes
/// on.
pub proof fn lemma_deadline_stays(
    s: SessionView,
    iface: Seq<char>,
    at: nat,
    other: Seq<char>,
    has_backup: bool,
    now: nat,
)
    requires
        s.deadlines.contains((iface, at)),
        other != iface,
    ensures
        s.chosen(other, has_backup).deadlines.contains((iface, at)),
        s.changed(other, now).deadlines.contains((iface, at)),
        s.undone(other).deadlines.contains((iface, at)),
        now < at ==> s.ticked(now).deadlines.contains((iface, at)),
        now >= at ==> due_by(s.deadlines, now).contains(iface),
{
    let i = choose|i: int| 0 <= i < s.deadlines.len() && s.deadlines[i] == (iface, at);
    lemma_without_adapter(s.deadlines, other);
    lemma_left_after(s.deadlines, now);
    let others = without_adapter(s.deadlines, other);
    let more = s.changed(other, now).deadlines;
    let k = choose|k: int| 0 <= k < others.len() && others[k] == (iface, at);
    assert(more[k] == (iface, at));
}

/// Once the settings are kept nothing is taken back by itself.
pub proof fn lemma_kept(s: SessionView, now: nat)
    ensures
        due_by(s.kept().deadlines, now).len() == 0,
        s.kept().ticked(now) == s.kept(),
{
    assert(left_after(s.kept().deadlines, now) =~= s.kept().deadlines);
}

/// Once a change has been taken back it is not taken back again by itself, and
/// the selected adapter shows nothing to take back.
pub proof fn lemma_undone(s: SessionView, iface: Seq<char>, now: nat)
    ensures
        !due_by(s.undone(iface).deadlines, now).contains(iface),
        s.selected == Some(iface) ==> !s.undone(iface).applied,
{
    let left = s.undone(iface).deadlines;
    let due = due_by(left, now);
    lemma_without_adapter(s.deadlines, iface);
    lemma_left_after(left, now);
    if due.contains(iface) {
        let i = choose|i: int| 0 <= i < due.len() && due[i] == iface;
        let k = choose|k: int| 0 <= k < left.len() && (#[trigger] left[k]).1 <= now && left[k].0 == due[i];
        assert(left[k].0 != iface);
    }
}

/// As the time is noted every deadline is either due now or stands, and never
/// both.
pub proof fn lemma_ticked(s: SessionView, now: nat, i: int)
    requires
        s.ok(),
        0 <= i < s.deadlines.len(),
    ensures
        s.ticked(now).ok(),
        due_by(s.deadlines, now).contains(s.deadlines[i].0) <==> s.deadlines[i].1 <= now,
        s.ticked(now).deadlines.contains(s.deadlines[i]) <==> s.deadlines[i].1 > now,
{
    let all = s.deadlines;
    let due = due_by(all, now);
    let left = left_after(all, now);
    lemma_left_after(all, now);
    if due.contains(all[i].0) {
        let j = choose|j: int| 0 <= j < due.len() && due[j] == all[i].0;
        let k = choose|k: int| 0 <= k < all.len() && (#[trigger] all[k]).1 <= now && all[k].0 == due[j];
        assert(all[k].0 == all[i].0);
        assert(k == i);
    }
    if left.contains(all[i]) {
        let j = choose|j: int| 0 <= j < left.len() && left[j] == all[i];
        assert(left[j].1 > now);
    }
}

/// The seconds that are counted down never show as none, and show one more
/// than the full time at most.
pub proof fn lemma_countdown(deadlines: Seq<(Seq<char>, nat)>, now: nat)
    requires
        deadlines.len() > 0,
        forall|i: int|
            0 <= i < deadlines.len() ==> now < (#[trigger] deadlines[i]).1 <= now + AUTO_REVERT_MS,
    ensures
        1 <= (earliest(deadlines) - now) / 1000 + 1 <= AUTO_REVERT_MS / 1000 + 1,
{
    lemma_earliest(deadlines);
}

/// What has become of the adapters after the first of them have been tried,
/// with these results.
pub open spec fn tried_all(names: Seq<Seq<char>>, results: Seq<Result<(), Seq<char>>>) -> RevertAllView
    decreases results.len(),
{
    if results.len() == 0 {
        RevertAllView::begun(names)
    } else {
        tried_all(names, results.drop_last()).reported(results.last())
    }
}

/// Every adapter of which there is a backup is tried once, in turn, also after
/// one could not be put back. What failed, and nothing else, is remembered
/// with its reason, and a dialog is shown in the end exactly where something
/// failed; without a backup nothing is tried or shown.
pub proof fn lemma_every_backup_tried(
    names: Seq<Seq<char>>,
    results: Seq<Result<(), Seq<char>>>,
    status: Seq<char>,
    name: Seq<char>,
    reason: Seq<char>,
)
    requires
        results.len() <= names.len(),
    ensures
        tried_all(names, results).names == names,
        tried_all(names, results).tried == results.len(),
        tried_all(names, results).due() == if results.len() < names.len() {
            Some(names[results.len() as int])
        } else {
            None
        },
        tried_all(names, results).failures.contains((name, reason)) <==> exists|i: int|
            0 <= i < results.len() && names[i] == name && #[trigger] results[i] == Err::<(), Seq<char>>(reason),
        tried_all(names, results).failures.len() == 0 <==> forall|i: int|
            0 <= i < results.len() ==> #[trigger] results[i] is Ok,
        ending_of(tried_all(names, results), status) is Failed <==> exists|i: int|
            0 <= i < results.len() && #[trigger] results[i] is Err,
        names.len() == 0 <==> ending_of(tried_all(names, results), status) is Nothing,
    decreases results.len(),
{
    let after = tried_all(names, results);
    if results.len() > 0 {
        let init = results.drop_last();
        let last = results.len() - 1;
        lemma_every_backup_tried(names, init, status, name, reason);
        let before = tried_all(names, init);
        let some = before.failures;
        let all = after.failures;
        if all.contains((name, reason)) {
            let k = choose|k: int| 0 <= k < all.len() && all[k] == (name, reason);
            if k < some.len() {
                assert(some[k] == (name, reason));
                let i = choose|i: int|
                    0 <= i < init.len() && names[i] == name && #[trigger] init[i] == Err::<(), Seq<char>>(reason);
                assert(results[i] == init[i]);
            } else {
                assert(results[last] == Err::<(), Seq<char>>(reason));
            }
        }
        if exists|i: int|
            0 <= i < results.len() && names[i] == name && #[trigger] results[i] == Err::<(), Seq<char>>(reason) {
            let i = choose|i: int|
                0 <= i < results.len() && names[i] == name && #[trigger] results[i] == Err::<(), Seq<char>>(reason);
            if i < last {
                assert(init[i] == results[i]);
                let k = choose|k: int| 0 <= k < some.len() && some[k] == (name, reason);
                assert(all[k] == (name, reason));
            } else {
                assert(all[all.len() - 1] == (name, reason));
            }
        }
        if all.len() == 0 {
            assert forall|i: int| 0 <= i < results.len() implies #[trigger] results[i] is Ok by {
                if i < last {
                    assert(init[i] == results[i]);
                }
            }
        }
        if forall|i: int| 0 <= i < results.len() ==> #[trigger] results[i] is Ok {
            assert forall|i: int| 0 <= i < init.len() implies #[trigger] init[i] is Ok by {
                assert(init[i] == results[i]);
            }
            assert(results[last] is Ok);
        }
    }
}

/// What comes of a request to apply settings. Without an adapter, or with
/// settings that are not valid, nothing is planned, and the reason is told.
/// Else the plan is for the selected adapter: carried out, it gives the adapter
/// the address, the mask and the gateway that were typed, and changes no other;
/// and where there is no backup yet, the first step saves one.
pub proof fn lemma_apply_answer(
    selected: Option<Seq<char>>,
    ip: Seq<char>,
    mask: Seq<char>,
    gateway: Seq<char>,
    has_backup: bool,
    adapter: netconfig::AdapterView,
    other: Seq<char>,
)
    ensures
        match apply_answer(selected, ip, mask, gateway, has_backup) {
            Ok((iface, steps)) => {
                let after = netconfig::performed(adapter, iface, steps);
                &&& selected == Some(iface)
                &&& validate::config_result(ip, mask, gateway) is Ok
                &&& after.fixed matches Some((i, m, g)) && i == ip && m == mask && netconfig::is_gateway(gateway, g)
                &&& after.servers == adapter.servers
                &&& other != iface ==> netconfig::performed(adapter, other, steps) == adapter
                &&& !has_backup ==> steps.len() == 2 && steps[0] is SaveBackup
                &&& has_backup ==> steps.len() == 1
            },
            Err(d) => {
                &&& selected is None ==> d.title == "No adapter selected"@ && d.text == "Pick an adapter first."@
                &&& selected is Some ==> d.title == "Invalid settings"@ && validate::config_result(ip, mask, gateway)
                    == Err::<(), Seq<char>>(d.text)
            },
        },
{
    if let Some(iface) = selected {
        netconfig::lemma_apply_sets(iface, ip, mask, gateway, has_backup, adapter, other);
    }
}

/// A change gives its adapter one deadline, three minutes on, in place of any
/// that it had, and leaves those of the others. There is something to keep, and
/// something to take back where the adapter is the selected one.
pub proof fn lemma_change_noted(s: SessionView, iface: Seq<char>, now: nat, d: (Seq<char>, nat))
    ensures
        s.changed(iface, now).deadlines.contains(d) <==> if d.0 == iface {
            d.1 == now + 180_000
        } else {
            s.deadlines.contains(d)
        },
        s.changed(iface, now).selected == s.selected,
        s.changed(iface, now).can_keep,
        s.changed(iface, now).applied <==> s.applied || s.selected == Some(iface),
{
    let others = without_adapter(s.deadlines, iface);
    let all = s.changed(iface, now).deadlines;
    lemma_without_adapter(s.deadlines, iface);
    assert(all[others.len() as int] == (iface, now + AUTO_REVERT_MS as nat));
    if all.contains(d) {
        let k = choose|k: int| 0 <= k < all.len() && all[k] == d;
        if k < others.len() {
            assert(others[k] == d);
        }
    }
    if d.0 != iface && s.deadlines.contains(d) {
        let i = choose|i: int| 0 <= i < s.deadlines.len() && s.deadlines[i] == d;
        let k = choose|k: int| 0 <= k < others.len() && others[k] == s.deadlines[i];
        assert(all[k] == d);
    }
}

/// Once a change has been taken back its adapter has no deadline, and those of
/// the others stand. There is something left to keep exactly where another
/// adapter has a deadline.
pub proof fn lemma_undo_noted(s: SessionView, iface: Seq<char>, d: (Seq<char>, nat))
    ensures
        s.undone(iface).deadlines.contains(d) <==> d.0 != iface && s.deadlines.contains(d),
        s.undone(iface).can_keep <==> exists|i: int| 0 <= i < s.deadlines.len() && (#[trigger] s.deadlines[i]).0 != iface,
        s.undone(iface).selected == s.selected,
        s.undone(iface).applied <==> s.applied && s.selected != Some(iface),
{
    let left = s.undone(iface).deadlines;
    lemma_without_adapter(s.deadlines, iface);
    if left.contains(d) {
        let k = choose|k: int| 0 <= k < left.len() && left[k] == d;
        assert(left[k].0 != iface);
    }
    if left.len() > 0 {
        assert(left[0].0 != iface && s.deadlines.contains(left[0]));
        let i = choose|i: int| 0 <= i < s.deadlines.len() && s.deadlines[i] == left[0];
        assert(s.deadlines[i].0 != iface);
    }
}

/// To keep the settings, to select an adapter and to note the time change what
/// they are about and nothing else: kept settings can still be taken back by
/// hand, a selected adapter shows whether there is a backup of it, and as time
/// goes on a deadline leaves exactly once it has come.
pub proof fn lemma_rest_stays(s: SessionView, iface: Seq<char>, has_backup: bool, now: nat, d: (Seq<char>, nat))
    ensures
        s.kept().deadlines.len() == 0,
        s.kept().selected == s.selected && s.kept().applied == s.applied && s.kept().can_keep == s.can_keep,
        s.chosen(iface, has_backup).selected == Some(iface),
        s.chosen(iface, has_backup).applied == has_backup,
        s.chosen(iface, has_backup).deadlines == s.deadlines,
        s.chosen(iface, has_backup).can_keep == s.can_keep,
        s.ticked(now).deadlines.contains(d) <==> s.deadlines.contains(d) && d.1 > now,
        s.ticked(now).selected == s.selected && s.ticked(now).applied == s.applied && s.ticked(now).can_keep
            == s.can_keep,
        due_by(s.deadlines, now).contains(iface) <==> exists|i: int|
            0 <= i < s.deadlines.len() && (#[trigger] s.deadlines[i]).0 == iface && s.deadlines[i].1 <= now,
{
    lemma_left_after(s.deadlines, now);
    let left = left_after(s.deadlines, now);
    let due = due_by(s.deadlines, now);
    if left.contains(d) {
        let k = choose|k: int| 0 <= k < left.len() && left[k] == d;
        assert(left[k].1 > now);
    }
    if due.contains(iface) {
        let j = choose|j: int| 0 <= j < due.len() && due[j] == iface;
        assert(exists|k: int|
            0 <= k < s.deadlines.len() && (#[trigger] s.deadlines[k]).1 <= now && s.deadlines[k].0 == due[j]);
    }
}

/// The line that counts down shows the seconds, a begun one included, until the
/// earliest of the deadlines; it is blank where there is none.
pub proof fn lemma_countdown_shown(deadlines: Seq<(Seq<char>, nat)>, now: nat, i: int)
    requires
        forall|k: int| 0 <= k < deadlines.len() ==> now < (#[trigger] deadlines[k]).1,
        deadlines.len() > 0 ==> 0 <= i < deadlines.len() && forall|k: int|
            0 <= k < deadlines.len() ==> deadlines[i].1 <= (#[trigger] deadlines[k]).1,
    ensures
        deadlines.len() == 0 ==> countdown(deadlines, now).len() == 0,
        deadlines.len() > 0 ==> exists|seconds: nat|
            {
                &&& (seconds - 1) * 1000 <= deadlines[i].1 - now < seconds * 1000
                &&& countdown(deadlines, now) == "Reverting automatically in "@ + #[trigger] text::decimal(seconds)
                    + "s unless you click Keep."@
            },
{
    if deadlines.len() > 0 {
        lemma_earliest(deadlines);
        let left = deadlines[i].1 - now;
        let seconds = (left / 1000 + 1) as nat;
        assert(earliest(deadlines) == deadlines[i].1);
        assert(countdown(deadlines, now) == "Reverting automatically in "@ + text::decimal(seconds)
            + "s unless you click Keep."@);
    }
}

/// The subnet of an address is its first three octets with dots between them,
/// and every valid address, and no other text, has one.
pub proof fn lemma_base_written(ip: Seq<char>)
    ensures
        match validate::ipv4_result(ip) {
            Ok(octets) => base_in(ip) == Some(
                text::decimal(octets[0] as nat) + seq!['.'] + text::decimal(octets[1] as nat) + seq!['.']
                    + text::decimal(octets[2] as nat),
            ),
            Err(_) => base_in(ip) is None,
        },
{
    if let Ok(octets) = validate::ipv4_result(ip) {
        assert(base_in(ip)->0 =~= text::decimal(octets[0] as nat) + seq!['.'] + text::decimal(octets[1] as nat)
            + seq!['.'] + text::decimal(octets[2] as nat));
    }
}

/// A subnet is saved only where the address and the mask are valid, and what is
/// wrong is told, the address first.
pub proof fn lemma_save_judged(ip: Seq<char>, mask: Seq<char>)
    ensures
        match save_refused(ip, mask) {
            None => validate::ipv4_result(ip) is Ok && validate::mask_result(mask) is Ok,
            Some(d) => if validate::ipv4_result(ip) is Err {
                d.title == "No subnet to save"@ && d.text == "Enter a valid IP address first."@
            } else {
                d.title == "Invalid subnet mask"@ && validate::mask_result(mask) is Err
                    && validate::mask_result(mask)->Err_0 == d.text
            },
        },
{
}

/// Each adapter that could not be put back has a line of its own in what is
/// said in the end, with the reason.
pub proof fn lemma_failures_told(failures: Seq<(Seq<char>, Seq<char>)>, f: (Seq<char>, Seq<char>))
    ensures
        failures_dialog(failures.push(f)) matches Some(d) && {
            &&& d.title == "Could not fully revert"@
            &&& d.text == match failures_dialog(failures) {
                None => "Some adapters could not be reverted automatically:\n\n"@ + (f.0 + ": "@ + f.1),
                Some(before) => before.text + "\n"@ + (f.0 + ": "@ + f.1),
            }
        },
        failures_dialog(failures) is None <==> failures.len() == 0,
{
    let head = "Some adapters could not be reverted automatically:\n\n"@;
    let line = f.0 + ": "@ + f.1;
    let lines = failure_lines(failures);
    let more = failure_lines(failures.push(f));
    assert(more =~= lines.push(line));
    assert(more.drop_last() =~= lines);
    if failures.len() > 0 {
        let joined = text::join_with(lines, "\n"@);
        assert(head + (joined + "\n"@ + line) =~= (head + joined) + "\n"@ + line);
    }
}

/// The line for a configuration begins with where the address comes from, and
/// shows the address, the mask of a fixed one, and the gateway.
pub proof fn lemma_summary(config: ConfigView, ip: Seq<char>, mask: Seq<char>, gateway: Seq<char>)
    ensures
        config.ip == Some(ip) && config.gateway == Some(gateway) && config.dhcp ==> summary_of(config) == "DHCP: "@ + ip
            + " (gateway "@ + gateway + ")"@,
        config.ip == Some(ip) && config.gateway is None && config.dhcp ==> summary_of(config) == "DHCP: "@ + ip,
        config.ip is None && config.dhcp ==> summary_of(config) == "DHCP: (no address / disconnected)"@,
        config.ip == Some(ip) && config.mask == Some(mask) && !config.dhcp ==> {
            &&& config.gateway == Some(gateway) ==> summary_of(config) == "Static: "@ + ip + " / "@ + mask + " (gateway "@
                + gateway + ")"@
            &&& config.gateway is None ==> summary_of(config) == "Static: "@ + ip + " / "@ + mask + " (gateway "@
                + "(none)"@ + ")"@
        },
        !config.dhcp && (config.ip is None || config.mask is None) ==> summary_of(config) == "Static: (unconfigured)"@,
{
}

/// What is said of a search names the subnet that it is about.
pub proof fn lemma_event_status(base: Seq<char>, mask: Seq<char>, host_count: nat, e: Seq<char>)
    ensures
        event_status(EventView::TryingCandidate { base: base, mask: mask }) == "Trying "@ + base + ".0/24..."@,
        event_status(EventView::CandidateResult { base: base, host_count: host_count }) == base + ".0/24: "@
            + text::decimal(host_count) + " response(s)."@,
        event_status(EventView::Found { base: base, mask: mask }) == "Found live device(s) on "@ + base
            + ".0/24 \u{2014} review below, then Apply to keep it or Revert to undo."@,
        event_status(EventView::NotFound) == "No devices found on common subnets. Enter values manually."@,
        event_status(EventView::Cancelled) == "Auto-detect cancelled; original settings restored."@,
        event_status(EventView::Error(e)) == "Auto-detect error: "@ + e,
{
}

/// What is said of a subnet that was saved or removed names it, with its mask,
/// and tells how many are saved.
pub proof fn lemma_stored_status(base: Seq<char>, mask: Seq<char>, count: nat)
    ensures
        stored_status(Toggle::Removed, base, mask, count) == "Removed "@ + base + ".0/24 ("@ + mask
            + ") from saved subnets ("@ + text::decimal(count) + " remaining)."@,
        stored_status(Toggle::Added, base, mask, count) == "Saved "@ + base + ".0/24 ("@ + mask
            + ") \u{2014} tried first on every auto-detect from now on. Click Save subnet again with the same values to remove it. ("@
            + text::decimal(count) + " saved total)"@,
{
}

/// Once every adapter was tried, success is told with the line for it, and only
/// where there was one to put back and none failed.
pub proof fn lemma_ending(all: RevertAllView, status: Seq<char>)
    ensures
        ending_of(all, status) == if all.names.len() == 0 {
            EndingView::Nothing
        } else if all.failures.len() == 0 {
            EndingView::Status(status)
        } else {
            EndingView::Failed(failures_dialog(all.failures)->0)
        },
{
}

} // verus!
