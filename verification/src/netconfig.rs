//! Changing the configuration of an interface and putting it back: the
//! commands to run, in which order, and the backup that guards every change.
use crate::netiface;
use crate::netiface::{ConfigView, InterfaceConfig, SCHEMA_VERSION};
use crate::process;
use crate::process::Outcome;
use crate::text;
use vstd::prelude::*;

verus! {

// ---------------------------------------------------------------------------
// Backups
// ---------------------------------------------------------------------------

/// What every name of a backup file begins with.
pub const BACKUP_PREFIX: &'static str = "ip-config-tool-backup-";

/// A saved configuration, with the version of the format it was saved in.
#[derive(Debug, Clone, PartialEq)]
pub struct BackupFile {
    pub schema_version: u32,
    pub config: InterfaceConfig,
}

/// The contents of a `BackupFile`.
pub struct BackupView {
    pub schema_version: u32,
    pub config: ConfigView,
}

impl View for BackupFile {
    type V = BackupView;

    open spec fn view(&self) -> BackupView {
        BackupView { schema_version: self.schema_version, config: self.config@ }
    }
}

/// The contents of an optional backup.
pub open spec fn backup_view(backup: Option<BackupFile>) -> Option<BackupView> {
    match backup {
        Some(b) => Some(b@),
        None => None,
    }
}

/// The contents of each of a list of backups.
pub open spec fn backup_views(backups: Seq<BackupFile>) -> Seq<BackupView> {
    backups.map_values(|b: BackupFile| b@)
}

/// A character that may stand in any file name.
pub open spec fn is_safe(c: char) -> bool {
    text::is_alphanumeric(c) || c == '-' || c == '_'
}

/// The name with an underscore in place of every character that is not safe.
pub open spec fn sanitized(name: Seq<char>) -> Seq<char> {
    name.map_values(
        |c: char|
            if is_safe(c) {
                c
            } else {
                '_'
            },
    )
}

/// Makes the name of an interface fit for a file name.
pub fn sanitize_name(name: &str) -> (r: String)
    ensures
        r@ == sanitized(name@),
{
    let s = text::chars_of(name);
    let mut out = String::new();
    let mut i: usize = 0;
    while i < s.len()
        invariant
            s@ == name@,
            i <= s@.len(),
            out@ == sanitized(name@).take(i as int),
        decreases s@.len() - i,
    {
        let c = s[i];
        if text::alphanumeric(c) || c == '-' || c == '_' {
            out.push(c);
        } else {
            out.push('_');
        }
        i += 1;
        assert(out@ =~= sanitized(name@).take(i as int));
    }
    assert(out@ =~= sanitized(name@));
    out
}

/// The name of the file that holds the backup of an interface.
pub open spec fn file_name_of(iface_name: Seq<char>) -> Seq<char> {
    BACKUP_PREFIX@ + sanitized(iface_name) + ".json"@
}

/// Names the file that holds the backup of an interface.
pub fn backup_file_name(iface_name: &str) -> (r: String)
    ensures
        r@ == file_name_of(iface_name@),
{
    let mut out = BACKUP_PREFIX.to_owned();
    let safe = sanitize_name(iface_name);
    out.append(safe.as_str());
    out.append(".json");
    out
}

/// A file name that a backup can have.
pub open spec fn is_backup_name(file_name: Seq<char>) -> bool {
    text::starts(file_name, BACKUP_PREFIX@) && text::ends(file_name, ".json"@)
}

/// Tells whether a file name is one that a backup can have.
pub fn is_backup_file(file_name: &str) -> (r: bool)
    ensures
        r == is_backup_name(file_name@),
{
    let s = text::chars_of(file_name);
    let prefix = text::chars_of(BACKUP_PREFIX);
    let suffix = text::chars_of(".json");
    text::starts_with(s.as_slice(), prefix.as_slice()) && text::ends_with(s.as_slice(), suffix.as_slice())
}

/// The backup of a configuration, in the present format.
pub open spec fn backup_of(config: ConfigView) -> BackupView {
    BackupView { schema_version: SCHEMA_VERSION, config: config }
}

/// The backup to write for the configuration that was read before a change:
/// where it could not be read there is none, and the reason is handed on.
pub fn backup_current_config(read: Result<InterfaceConfig, String>) -> (r: Result<BackupFile, String>)
    ensures
        match read {
            Ok(config) => r matches Ok(b) && b@ == backup_of(config@),
            Err(e) => r matches Err(m) && m@ == e@,
        },
{
    match read {
        Ok(config) => Ok(BackupFile { schema_version: SCHEMA_VERSION, config: config }),
        Err(e) => Err(e),
    }
}

/// The backup that a file holds: `stored` is what was read from it, if that
/// could be read, and one in another format does not count.
pub open spec fn usable(stored: Option<BackupView>) -> Option<BackupView> {
    match stored {
        Some(b) if b.schema_version == SCHEMA_VERSION => Some(b),
        _ => None,
    }
}

/// Takes the backup that was read from a file, unless it is in another format.
pub fn load_backup(stored: Option<BackupFile>) -> (r: Option<BackupFile>)
    ensures
        backup_view(r) == usable(backup_view(stored)),
{
    match stored {
        Some(b) => if b.schema_version == SCHEMA_VERSION {
            Some(b)
        } else {
            None
        },
        None => None,
    }
}

/// The contents of a directory: of each file its name and the backup that was
/// read from it, if one could be.
pub open spec fn entry_views(entries: Seq<(String, Option<BackupFile>)>) -> Seq<(Seq<char>, Option<BackupView>)> {
    entries.map_values(|e: (String, Option<BackupFile>)| (e.0@, backup_view(e.1)))
}

/// The usable backups among the files that have the name of one, in their
/// order.
pub open spec fn orphans(entries: Seq<(Seq<char>, Option<BackupView>)>) -> Seq<BackupView>
    decreases entries.len(),
{
    if entries.len() == 0 {
        seq![]
    } else {
        let (name, stored) = entries.last();
        match usable(stored) {
            Some(b) if is_backup_name(name) => orphans(entries.drop_last()).push(b),
            _ => orphans(entries.drop_last()),
        }
    }
}

/// Finds the backups that are left in a directory.
pub fn list_orphan_backups(entries: Vec<(String, Option<BackupFile>)>) -> (r: Vec<BackupFile>)
    ensures
        backup_views(r@) == orphans(entry_views(entries@)),
{
    let ghost v = entry_views(entries@);
    let mut out: Vec<BackupFile> = Vec::new();
    assert(backup_views(out@) =~= orphans(v.take(0)));
    for entry in it: entries
        invariant
            v == entry_views(it.seq()),
            backup_views(out@) == orphans(v.take(it.index() as int)),
    {
        let ghost i = it.index() as int;
        let ghost before = out@;
        assert(v[i] == (entry.0@, backup_view(entry.1)));
        assert(v.take(i + 1).drop_last() =~= v.take(i));
        let (name, stored) = entry;
        if is_backup_file(name.as_str()) {
            if let Some(b) = load_backup(stored) {
                out.push(b);
                assert(backup_views(out@) =~= backup_views(before).push(b@));
            }
        }
    }
    assert(v.take(v.len() as int) =~= v);
    out
}

// ---------------------------------------------------------------------------
// Commands
// ---------------------------------------------------------------------------

/// The arguments that give an interface a fixed address; a blank gateway is
/// left out.
pub open spec fn static_args(
    iface: Seq<char>,
    ip: Seq<char>,
    mask: Seq<char>,
    gateway: Seq<char>,
) -> Seq<Seq<char>> {
    let args = seq!["interface"@, "ip"@, "set"@, "address"@, "name="@ + iface, "static"@, ip, mask];
    if text::trim_of(gateway).len() == 0 {
        args
    } else {
        args.push(text::trim_of(gateway))
    }
}

fn named(iface: &str) -> (r: String)
    ensures
        r@ == "name="@ + iface@,
{
    let mut out = "name=".to_owned();
    out.append(iface);
    out
}

/// The arguments to `netsh` that give an interface a fixed address.
pub fn apply_static(iface: &str, ip: &str, mask: &str, gateway: &str) -> (r: Vec<String>)
    ensures
        text::string_views(r@) == static_args(iface@, ip@, mask@, gateway@),
{
    let mut args = vec![
        "interface".to_owned(),
        "ip".to_owned(),
        "set".to_owned(),
        "address".to_owned(),
        named(iface),
        "static".to_owned(),
        ip.to_owned(),
        mask.to_owned(),
    ];
    let g = text::chars_of(gateway);
    let trimmed = text::trim(g.as_slice());
    if trimmed.len() > 0 {
        args.push(text::string_of(trimmed));
    }
    assert(text::string_views(args@) =~= static_args(iface@, ip@, mask@, gateway@));
    args
}

/// The arguments that let `setting`, the address or the name servers of an
/// interface, come from DHCP.
pub open spec fn dhcp_args(iface: Seq<char>, setting: Seq<char>) -> Seq<Seq<char>> {
    seq!["interface"@, "ip"@, "set"@, setting, "name="@ + iface, "dhcp"@]
}

fn dhcp_command(iface: &str, setting: &str) -> (r: Vec<String>)
    ensures
        text::string_views(r@) == dhcp_args(iface@, setting@),
{
    let args = vec![
        "interface".to_owned(),
        "ip".to_owned(),
        "set".to_owned(),
        setting.to_owned(),
        named(iface),
        "dhcp".to_owned(),
    ];
    assert(text::string_views(args@) =~= dhcp_args(iface@, setting@));
    args
}

/// The arguments for name server number `i`: the first replaces those that
/// are set, each further one is added.
pub open spec fn dns_args(iface: Seq<char>, server: Seq<char>, i: int) -> Seq<Seq<char>> {
    let action = if i == 0 {
        "set"@
    } else {
        "add"@
    };
    seq!["interface"@, "ip"@, action, "dns"@, "name="@ + iface, server]
}

fn dns_command(iface: &str, server: &str, first: bool) -> (r: Vec<String>)
    ensures
        text::string_views(r@) == dns_args(
            iface@,
            server@,
            if first {
                0
            } else {
                1
            },
        ),
{
    let action = if first {
        "set"
    } else {
        "add"
    };
    let args = vec![
        "interface".to_owned(),
        "ip".to_owned(),
        action.to_owned(),
        "dns".to_owned(),
        named(iface),
        server.to_owned(),
    ];
    assert(text::string_views(args@) =~= dns_args(
        iface@,
        server@,
        if first {
            0
        } else {
            1
        },
    ));
    args
}

// ---------------------------------------------------------------------------
// Plans
// ---------------------------------------------------------------------------

/// One step of a change to an interface.
#[derive(Debug, Clone, PartialEq)]
pub enum Step {
    /// Read the present configuration and save it.
    SaveBackup,
    /// Run `netsh` with these arguments.
    Netsh(Vec<String>),
    /// Delete the saved configuration.
    DeleteBackup,
}

/// The contents of a `Step`.
pub enum StepView {
    SaveBackup,
    Netsh(Seq<Seq<char>>),
    DeleteBackup,
}

impl View for Step {
    type V = StepView;

    open spec fn view(&self) -> StepView {
        match self {
            Step::SaveBackup => StepView::SaveBackup,
            Step::Netsh(args) => StepView::Netsh(text::string_views(args@)),
            Step::DeleteBackup => StepView::DeleteBackup,
        }
    }
}

/// The contents of each of a list of steps.
pub open spec fn step_views(steps: Seq<Step>) -> Seq<StepView> {
    steps.map_values(|s: Step| s@)
}

/// The steps that set the name servers of an interface.
pub open spec fn dns_steps(iface: Seq<char>, dns: Seq<Seq<char>>) -> Seq<StepView> {
    Seq::new(dns.len(), |i: int| StepView::Netsh(dns_args(iface, dns[i], i)))
}

/// The steps that let everything come from DHCP.
pub open spec fn dhcp_steps(iface: Seq<char>) -> Seq<StepView> {
    seq![StepView::Netsh(dhcp_args(iface, "address"@)), StepView::Netsh(dhcp_args(iface, "dns"@))]
}

/// The text of an optional setting; empty where there is none.
pub open spec fn or_empty(s: Option<Seq<char>>) -> Seq<char> {
    match s {
        Some(t) => t,
        None => seq![],
    }
}

/// The configuration has name servers that were set by hand.
pub open spec fn own_servers(config: ConfigView) -> bool {
    config.static_dns && config.dns.len() > 0
}

/// The steps that put an interface into the given configuration: where the
/// address comes from DHCP the name servers may still be set by hand, and one
/// that has a fixed address without address or mask is left alone.
pub open spec fn restore_steps(iface: Seq<char>, config: ConfigView) -> Seq<StepView> {
    if config.dhcp && own_servers(config) {
        seq![StepView::Netsh(dhcp_args(iface, "address"@))] + dns_steps(iface, config.dns)
    } else if config.dhcp {
        dhcp_steps(iface)
    } else if config.ip is Some && config.mask is Some {
        seq![StepView::Netsh(static_args(iface, config.ip->0, config.mask->0, or_empty(config.gateway)))]
            + dns_steps(iface, config.dns)
    } else {
        seq![]
    }
}

/// The steps that undo the changes to an interface: put the saved
/// configuration back, and only then delete the backup.
pub open spec fn revert_steps(iface: Seq<char>, config: ConfigView) -> Seq<StepView> {
    restore_steps(iface, config).push(StepView::DeleteBackup)
}

/// The steps that give an interface a fixed address: the present configuration
/// is saved first, unless a backup is there already.
pub open spec fn apply_steps(
    iface: Seq<char>,
    ip: Seq<char>,
    mask: Seq<char>,
    gateway: Seq<char>,
    has_backup: bool,
) -> Seq<StepView> {
    let change = StepView::Netsh(static_args(iface, ip, mask, gateway));
    if has_backup {
        seq![change]
    } else {
        seq![StepView::SaveBackup, change]
    }
}

/// The steps that lead up to a search: the present configuration is saved,
/// unless a backup is there already.
pub open spec fn search_steps(has_backup: bool) -> Seq<StepView> {
    if has_backup {
        seq![]
    } else {
        seq![StepView::SaveBackup]
    }
}

/// Appends the steps that set the name servers of an interface.
fn push_dns(steps: &mut Vec<Step>, iface: &str, dns: &[String])
    ensures
        step_views(final(steps)@) == step_views(old(steps)@) + dns_steps(iface@, text::string_views(dns@)),
{
    let ghost before = step_views(steps@);
    let ghost all = dns_steps(iface@, text::string_views(dns@));
    let mut i: usize = 0;
    assert(step_views(steps@) =~= before + all.take(0));
    while i < dns.len()
        invariant
            all == dns_steps(iface@, text::string_views(dns@)),
            i <= dns@.len(),
            step_views(steps@) == before + all.take(i as int),
        decreases dns@.len() - i,
    {
        let ghost so_far = steps@;
        let step = Step::Netsh(dns_command(iface, dns[i].as_str(), i == 0));
        steps.push(step);
        assert(text::string_views(dns@)[i as int] == dns@[i as int]@);
        assert(step@ == all[i as int]);
        assert(step_views(steps@) =~= step_views(so_far).push(step@));
        assert(all.take(i + 1) =~= all.take(i as int).push(all[i as int]));
        i += 1;
        assert(step_views(steps@) =~= before + all.take(i as int));
    }
    assert(all.take(i as int) =~= all);
}

/// The steps that let everything come from DHCP.
pub fn set_dhcp(iface: &str) -> (r: Vec<Step>)
    ensures
        step_views(r@) == dhcp_steps(iface@),
{
    let steps = vec![Step::Netsh(dhcp_command(iface, "address")), Step::Netsh(dhcp_command(iface, "dns"))];
    assert(step_views(steps@) =~= dhcp_steps(iface@));
    steps
}

/// The steps that set the name servers of an interface.
pub fn set_static_dns(iface: &str, dns: &[String]) -> (r: Vec<Step>)
    ensures
        step_views(r@) == dns_steps(iface@, text::string_views(dns@)),
{
    let mut steps: Vec<Step> = Vec::new();
    push_dns(&mut steps, iface, dns);
    assert(step_views(steps@) =~= dns_steps(iface@, text::string_views(dns@)));
    steps
}

/// What is said where there is nothing to revert to.
pub open spec fn no_backup_message(iface: Seq<char>) -> Seq<char> {
    "No saved backup found for '"@ + iface + "' \u{2014} nothing to revert to"@
}

/// The steps that put an interface back into the configuration that was saved:
/// `stored` is what was read from its backup file.
pub fn revert(iface: &str, stored: Option<BackupFile>) -> (r: Result<Vec<Step>, String>)
    ensures
        match usable(backup_view(stored)) {
            Some(b) => r matches Ok(steps) && step_views(steps@) == revert_steps(iface@, b.config),
            None => r matches Err(m) && m@ == no_backup_message(iface@),
        },
{
    let backup = match load_backup(stored) {
        Some(b) => b,
        None => {
            let mut message = "No saved backup found for '".to_owned();
            message.append(iface);
            message.append("' \u{2014} nothing to revert to");
            return Err(message);
        },
    };
    let config = backup.config;
    let mut steps: Vec<Step> = Vec::new();
    if config.dhcp && config.static_dns && config.dns.len() > 0 {
        steps.push(Step::Netsh(dhcp_command(iface, "address")));
        push_dns(&mut steps, iface, config.dns.as_slice());
    } else if config.dhcp {
        steps = set_dhcp(iface);
    } else {
        match (&config.ip, &config.mask) {
            (Some(ip), Some(mask)) => {
                let gateway = match &config.gateway {
                    Some(g) => g.as_str(),
                    None => "",
                };
                proof {
                    reveal_strlit("");
                    assert(""@ =~= seq![]);
                    assert(gateway@ == or_empty(config@.gateway));
                }
                steps.push(Step::Netsh(apply_static(iface, ip.as_str(), mask.as_str(), gateway)));
                push_dns(&mut steps, iface, config.dns.as_slice());
            },
            _ => {},
        }
    }
    assert(step_views(steps@) =~= restore_steps(iface@, config@));
    let ghost before = steps@;
    steps.push(Step::DeleteBackup);
    assert(step_views(steps@) =~= step_views(before).push(StepView::DeleteBackup));
    Ok(steps)
}

/// The steps that give an interface a fixed address. The values are to be
/// checked first.
pub fn plan_apply(iface: &str, ip: &str, mask: &str, gateway: &str, has_backup: bool) -> (r: Vec<Step>)
    ensures
        step_views(r@) == apply_steps(iface@, ip@, mask@, gateway@, has_backup),
{
    let change = Step::Netsh(apply_static(iface, ip, mask, gateway));
    let mut steps: Vec<Step> = Vec::new();
    if !has_backup {
        steps.push(Step::SaveBackup);
    }
    steps.push(change);
    assert(step_views(steps@) =~= apply_steps(iface@, ip@, mask@, gateway@, has_backup));
    steps
}

/// The steps that lead up to a search for the subnet of a device.
pub fn plan_search(has_backup: bool) -> (r: Vec<Step>)
    ensures
        step_views(r@) == search_steps(has_backup),
{
    let mut steps: Vec<Step> = Vec::new();
    if !has_backup {
        steps.push(Step::SaveBackup);
    }
    assert(step_views(steps@) =~= search_steps(has_backup));
    steps
}

/// Tells what came of one `netsh` command.
pub fn run_netsh(shown: &str, outcome: Outcome) -> (r: Result<(), String>)
    ensures
        match netiface::netsh_output(shown@, outcome) {
            Ok(_) => r is Ok,
            Err(e) => r matches Err(m) && m@ == e,
        },
{
    match netiface::run_netsh(shown, outcome) {
        Ok(_) => Ok(()),
        Err(e) => Err(e),
    }
}

// ---------------------------------------------------------------------------
// Carrying out a plan
// ---------------------------------------------------------------------------

/// How far a plan has been carried out.
pub struct RunView {
    pub plan: Seq<StepView>,
    /// How many steps have succeeded.
    pub succeeded: nat,
    /// What the step after those has failed with, if it has.
    pub error: Option<Seq<char>>,
}

impl RunView {
    /// Nothing has been done yet.
    pub open spec fn begun(plan: Seq<StepView>) -> RunView {
        RunView { plan: plan, succeeded: 0, error: None }
    }

    /// No more steps have succeeded than there are, and a step that has failed
    /// is one of the others.
    pub open spec fn ok(self) -> bool {
        &&& self.succeeded <= self.plan.len()
        &&& self.error is Some ==> self.succeeded < self.plan.len()
    }

    /// The step that is to be performed now: none after one has failed.
    pub open spec fn due(self) -> Option<StepView> {
        if self.error is Some || self.succeeded >= self.plan.len() {
            None
        } else {
            Some(self.plan[self.succeeded as int])
        }
    }

    /// The present step has been performed, with this result.
    pub open spec fn reported(self, result: Result<(), Seq<char>>) -> RunView {
        match result {
            Ok(_) => RunView { succeeded: self.succeeded + 1, ..self },
            Err(e) => RunView { error: Some(e), ..self },
        }
    }

    /// What has come of the plan, once nothing is due any more: success if
    /// every step has succeeded, else the step that failed and its message.
    pub open spec fn outcome(self) -> Result<(), (StepView, Seq<char>)> {
        match self.error {
            None => Ok(()),
            Some(e) => Err((self.plan[self.succeeded as int], e)),
        }
    }
}

/// A plan that is being carried out, step by step, up to the first step that
/// fails.
pub struct Run {
    steps: Vec<Step>,
    next: usize,
    error: Option<String>,
}

impl View for Run {
    type V = RunView;

    closed spec fn view(&self) -> RunView {
        RunView {
            plan: step_views(self.steps@),
            succeeded: self.next as nat,
            error: text::opt_view(self.error),
        }
    }
}

/// What has come of a plan.
pub open spec fn outcome_view(r: Result<(), (Step, String)>) -> Result<(), (StepView, Seq<char>)> {
    match r {
        Ok(_) => Ok(()),
        Err((step, e)) => Err((step@, e@)),
    }
}

impl Run {
    /// Starts to carry out a plan.
    pub fn new(steps: Vec<Step>) -> (r: Run)
        ensures
            r@ == RunView::begun(step_views(steps@)),
            r@.ok(),
    {
        Run { steps: steps, next: 0, error: None }
    }

    /// The step to perform now, if one is left.
    pub fn current(&self) -> (r: Option<&Step>)
        ensures
            match r {
                Some(step) => self@.due() == Some(step@),
                None => self@.due() is None,
            },
    {
        if self.error.is_some() || self.next >= self.steps.len() {
            None
        } else {
            Some(&self.steps[self.next])
        }
    }

    /// Takes note of how the present step went.
    pub fn report(&mut self, result: Result<(), String>)
        requires
            old(self)@.due() is Some,
        ensures
            final(self)@ == old(self)@.reported(process::result_view(result)),
            final(self)@.ok(),
    {
        let n: usize = self.steps.len();
        assert(self.next < n);
        match result {
            Ok(_) => {
                self.next = self.next + 1;
            },
            Err(e) => {
                self.error = Some(e);
            },
        }
    }

    /// What has come of the plan: success if every step has succeeded, else
    /// the step that failed and its message.
    pub fn outcome(self) -> (r: Result<(), (Step, String)>)
        requires
            self@.ok(),
            self@.due() is None,
        ensures
            outcome_view(r) == self@.outcome(),
            r is Ok <==> self@.succeeded == self@.plan.len(),
    {
        let Run { steps, next, error } = self;
        match error {
            None => Ok(()),
            Some(e) => {
                let mut steps = steps;
                assert(step_views(steps@)[next as int] == steps@[next as int]@);
                Err((steps.remove(next), e))
            },
        }
    }
}

// ---------------------------------------------------------------------------
// Laws
// ---------------------------------------------------------------------------

/// A sanitized name holds safe characters only, as many as the name has, and
/// to sanitize it once more changes nothing.
pub proof fn lemma_sanitized(name: Seq<char>)
    ensures
        sanitized(name).len() == name.len(),
        forall|i: int| 0 <= i < name.len() ==> is_safe(#[trigger] sanitized(name)[i]),
        sanitized(sanitized(name)) == sanitized(name),
{
    assert(sanitized(sanitized(name)) =~= sanitized(name));
}

/// The backup file of every interface is recognised as one.
pub proof fn lemma_backup_name(iface_name: Seq<char>)
    ensures
        is_backup_name(file_name_of(iface_name)),
{
    let name = file_name_of(iface_name);
    assert(name.subrange(0, BACKUP_PREFIX@.len() as int) =~= BACKUP_PREFIX@);
    assert(name.subrange(name.len() - ".json"@.len(), name.len() as int) =~= ".json"@);
}

/// A configuration that was saved is what a later revert goes back to, and the
/// file it was saved in is found among those that a session left behind.
pub proof fn lemma_backup_round_trip(
    config: ConfigView,
    entries: Seq<(Seq<char>, Option<BackupView>)>,
    i: int,
)
    requires
        0 <= i < entries.len(),
        entries[i] == (file_name_of(config.name), Some(backup_of(config))),
    ensures
        usable(Some(backup_of(config))) == Some(backup_of(config)),
        orphans(entries).contains(backup_of(config)),
    decreases entries.len(),
{
    let all = orphans(entries);
    let init = orphans(entries.drop_last());
    if i < entries.len() - 1 {
        lemma_backup_round_trip(config, entries.drop_last(), i);
        let k = choose|k: int| 0 <= k < init.len() && init[k] == backup_of(config);
        assert(all[k] == backup_of(config));
    } else {
        lemma_backup_name(config.name);
        assert(all[all.len() - 1] == backup_of(config));
    }
}

/// Every backup that is found is in the present format.
pub proof fn lemma_orphans_usable(entries: Seq<(Seq<char>, Option<BackupView>)>, k: int)
    requires
        0 <= k < orphans(entries).len(),
    ensures
        usable(Some(orphans(entries)[k])) is Some,
    decreases entries.len(),
{
    let init = orphans(entries.drop_last());
    if k < init.len() {
        lemma_orphans_usable(entries.drop_last(), k);
        assert(orphans(entries)[k] == init[k]);
    }
}

/// No command changes an interface before its configuration has been saved:
/// where there is no backup yet, the first step saves one, and the change is
/// due only once that step has succeeded.
pub proof fn lemma_backup_before_change(
    iface: Seq<char>,
    ip: Seq<char>,
    mask: Seq<char>,
    gateway: Seq<char>,
    has_backup: bool,
    run: RunView,
)
    requires
        run.ok(),
        run.plan == apply_steps(iface, ip, mask, gateway, has_backup),
        run.due() matches Some(StepView::Netsh(_)),
    ensures
        has_backup || (run.succeeded == 1 && run.plan[0] is SaveBackup),
{
}

/// What leads up to a search changes nothing: it saves the configuration where
/// there is no backup yet, and where that succeeds there is one.
pub proof fn lemma_backup_before_search(has_backup: bool, run: RunView)
    requires
        run.ok(),
        run.plan == search_steps(has_backup),
        run.due() is None,
    ensures
        forall|i: int| 0 <= i < run.plan.len() ==> #[trigger] run.plan[i] is SaveBackup,
        run.outcome() is Ok ==> has_backup || (run.succeeded == 1 && run.plan[0] is SaveBackup),
{
}

/// A backup is deleted only after every command that puts the configuration
/// back has succeeded: it is the last step, and the only one of its kind.
pub proof fn lemma_backup_deleted_last(iface: Seq<char>, config: ConfigView, run: RunView)
    requires
        run.ok(),
        run.plan == revert_steps(iface, config),
    ensures
        run.due() == Some(StepView::DeleteBackup) <==> run.error is None && run.succeeded == restore_steps(
            iface,
            config,
        ).len(),
        forall|i: int| 0 <= i < restore_steps(iface, config).len() ==> #[trigger] run.plan[i] is Netsh,
{
    let steps = restore_steps(iface, config);
    assert forall|i: int| 0 <= i < steps.len() implies steps[i] is Netsh && #[trigger] run.plan[i] == steps[i] by {
    }
    if run.error is None && run.succeeded < steps.len() {
        assert(run.plan[run.succeeded as int] is Netsh);
    }
}

/// A plan after its first steps have been performed, with these results.
pub open spec fn carried_out(plan: Seq<StepView>, results: Seq<Result<(), Seq<char>>>) -> RunView
    decreases results.len(),
{
    if results.len() == 0 {
        RunView::begun(plan)
    } else {
        carried_out(plan, results.drop_last()).reported(results.last())
    }
}

/// These can be the results of the first steps of a plan: no step follows one
/// that has failed.
pub open spec fn stops_at_failure(plan: Seq<StepView>, results: Seq<Result<(), Seq<char>>>) -> bool {
    &&& results.len() <= plan.len()
    &&& forall|i: int| 0 <= i < results.len() - 1 ==> #[trigger] results[i] is Ok
}

/// Steps are performed in their order until one fails. Then no further one is
/// due, and what comes of the plan is that step with exactly its message. A
/// plan comes to success exactly where every one of its steps has succeeded.
pub proof fn lemma_carried_out(plan: Seq<StepView>, results: Seq<Result<(), Seq<char>>>)
    requires
        stops_at_failure(plan, results),
    ensures
        ({
            let run = carried_out(plan, results);
            let n = results.len();
            &&& run.ok()
            &&& run.plan == plan
            &&& match if n == 0 {
                Ok::<(), Seq<char>>(())
            } else {
                results.last()
            } {
                Ok(_) => {
                    &&& run.succeeded == n
                    &&& run.error is None
                    &&& n == plan.len() ==> run.outcome() is Ok
                    &&& run.due() == if n < plan.len() {
                        Some(plan[n as int])
                    } else {
                        None
                    }
                },
                Err(e) => {
                    &&& run.succeeded == n - 1
                    &&& run.due() is None
                    &&& run.outcome() == Err::<(), (StepView, Seq<char>)>((plan[n - 1], e))
                },
            }
        }),
    decreases results.len(),
{
    if results.len() > 0 {
        let init = results.drop_last();
        assert forall|i: int| 0 <= i < init.len() - 1 implies #[trigger] init[i] is Ok by {
            assert(init[i] == results[i]);
        }
        if init.len() > 0 {
            assert(results[init.len() - 1] is Ok);
        }
        lemma_carried_out(plan, init);
    }
}

/// The backup has been deleted.
pub open spec fn backup_deleted(run: RunView) -> bool {
    exists|i: int| 0 <= i < run.succeeded && #[trigger] run.plan[i] is DeleteBackup
}

/// A revert succeeds exactly where every command has succeeded and the backup
/// is gone. Where a command fails the revert fails with its message, no later
/// command is run, and the backup is still there.
pub proof fn lemma_revert_outcome(iface: Seq<char>, config: ConfigView, results: Seq<Result<(), Seq<char>>>)
    requires
        stops_at_failure(revert_steps(iface, config), results),
        carried_out(revert_steps(iface, config), results).due() is None,
    ensures
        ({
            let plan = revert_steps(iface, config);
            let run = carried_out(plan, results);
            &&& run.outcome() is Ok <==> backup_deleted(run)
            &&& run.outcome() is Ok <==> results.len() == plan.len() && results.last() is Ok
            &&& run.outcome() matches Err((step, e)) ==> {
                &&& results.len() > 0
                &&& results.last() == Err::<(), Seq<char>>(e)
                &&& step == plan[results.len() - 1]
                &&& run.succeeded == results.len() - 1
            }
        }),
{
    let plan = revert_steps(iface, config);
    let run = carried_out(plan, results);
    let n = restore_steps(iface, config).len() as int;
    lemma_carried_out(plan, results);
    lemma_backup_deleted_last(iface, config, run);
    assert(plan[n] is DeleteBackup);
    if run.outcome() is Ok {
        assert(run.plan[n] is DeleteBackup);
    }
    if backup_deleted(run) {
        let i = choose|i: int| 0 <= i < run.succeeded && #[trigger] run.plan[i] is DeleteBackup;
        assert(i == n);
    }
}

/// The configuration says what there is to put back: the address comes from
/// DHCP, or there is one with its mask.
pub open spec fn is_complete(config: ConfigView) -> bool {
    config.dhcp || (config.ip is Some && config.mask is Some)
}

/// The only name server that was set by hand goes by the word that stands for
/// DHCP in a command.
pub open spec fn server_named_dhcp(config: ConfigView) -> bool {
    config.dhcp && config.static_dns && config.dns == seq!["dhcp"@]
}

/// The commands that put a configuration back leave nothing of it out. Two
/// configurations that are put back by the same commands either both have
/// their address from DHCP, and both their name servers too or the same ones
/// set by hand; or they have the same address, mask, gateway and name servers.
pub proof fn lemma_restore_says_all(iface: Seq<char>, a: ConfigView, b: ConfigView)
    requires
        is_complete(a),
        is_complete(b),
        !server_named_dhcp(a),
        !server_named_dhcp(b),
        restore_steps(iface, a) == restore_steps(iface, b),
    ensures
        a.dhcp == b.dhcp,
        a.dhcp ==> own_servers(a) == own_servers(b),
        a.dhcp && own_servers(a) ==> a.dns == b.dns,
        !a.dhcp ==> {
            &&& a.ip == b.ip
            &&& a.mask == b.mask
            &&& text::trim_of(or_empty(a.gateway)) == text::trim_of(or_empty(b.gateway))
            &&& a.dns == b.dns
        },
{
    reveal_strlit("dhcp");
    reveal_strlit("static");
    let sa = restore_steps(iface, a);
    let sb = restore_steps(iface, b);
    let fa = sa[0]->Netsh_0;
    let fb = sb[0]->Netsh_0;
    if a.dhcp != b.dhcp {
        let word = if a.dhcp { fb[5] } else { fa[5] };
        assert(word == "static"@ && word == "dhcp"@);
    } else if a.dhcp {
        if own_servers(a) && own_servers(b) {
            lemma_same_servers(iface, a.dns, b.dns, sa);
        } else if own_servers(a) {
            lemma_not_dhcp(iface, a.dns, sa);
        } else if own_servers(b) {
            lemma_not_dhcp(iface, b.dns, sb);
        }
    } else {
        assert(fa[6] == a.ip->0 && fb[6] == b.ip->0);
        assert(fa[7] == a.mask->0 && fb[7] == b.mask->0);
        let ga = text::trim_of(or_empty(a.gateway));
        let gb = text::trim_of(or_empty(b.gateway));
        if fa.len() == 8 {
            assert(ga =~= gb);
        } else {
            assert(fa[8] == ga && fb[8] == gb);
        }
        lemma_same_servers(iface, a.dns, b.dns, sa);
    }
}

proof fn lemma_same_servers(iface: Seq<char>, a: Seq<Seq<char>>, b: Seq<Seq<char>>, steps: Seq<StepView>)
    requires
        steps == seq![steps[0]] + dns_steps(iface, a),
        steps == seq![steps[0]] + dns_steps(iface, b),
    ensures
        a == b,
{
    assert(a.len() == steps.len() - 1 && b.len() == steps.len() - 1);
    assert forall|i: int| 0 <= i < a.len() implies a[i] == b[i] by {
        assert(steps[i + 1] == StepView::Netsh(dns_args(iface, a[i], i)));
        assert(steps[i + 1] == StepView::Netsh(dns_args(iface, b[i], i)));
        assert(dns_args(iface, a[i], i)[5] == dns_args(iface, b[i], i)[5]);
    }
    assert(a =~= b);
}

proof fn lemma_not_dhcp(iface: Seq<char>, dns: Seq<Seq<char>>, steps: Seq<StepView>)
    requires
        dns.len() > 0,
        dns != seq!["dhcp"@],
        steps == seq![steps[0]] + dns_steps(iface, dns),
    ensures
        steps != dhcp_steps(iface),
{
    if steps == dhcp_steps(iface) {
        assert(steps[1] == StepView::Netsh(dns_args(iface, dns[0], 0)));
        assert(steps[1] == StepView::Netsh(dhcp_args(iface, "dns"@)));
        assert(dns_args(iface, dns[0], 0) == dhcp_args(iface, "dns"@));
        assert(dns_args(iface, dns[0], 0)[5] == dns[0]);
        assert(dhcp_args(iface, "dns"@)[5] == "dhcp"@);
        assert(steps.len() == 1 + dns.len());
        assert(dns =~= seq!["dhcp"@]);
    }
}

// ---------------------------------------------------------------------------
// What the commands do
// ---------------------------------------------------------------------------

/// The settings of an adapter that commands can change.
pub struct AdapterView {
    /// The fixed address, its mask and the gateway, if there is one; none where
    /// the address comes from DHCP.
    pub fixed: Option<(Seq<char>, Seq<char>, Option<Seq<char>>)>,
    /// The name servers that were set; none where they come from DHCP.
    pub servers: Option<Seq<Seq<char>>>,
}

/// An adapter after `netsh` was run with these arguments. Behind `static` stand
/// the address, the mask and the gateway, which may be left out; a name server
/// is set in place of all others, or added to them. A command for another
/// adapter, or of another form, does nothing.
pub open spec fn executed(adapter: AdapterView, name: Seq<char>, args: Seq<Seq<char>>) -> AdapterView {
    if args.len() < 6 || args[0] != "interface"@ || args[1] != "ip"@ || args[4] != "name="@ + name {
        adapter
    } else if args[2] == "set"@ && args[3] == "address"@ && args[5] == "dhcp"@ && args.len() == 6 {
        AdapterView { fixed: None, ..adapter }
    } else if args[2] == "set"@ && args[3] == "address"@ && args[5] == "static"@ && args.len() == 8 {
        AdapterView { fixed: Some((args[6], args[7], None)), ..adapter }
    } else if args[2] == "set"@ && args[3] == "address"@ && args[5] == "static"@ && args.len() == 9 {
        AdapterView { fixed: Some((args[6], args[7], Some(args[8]))), ..adapter }
    } else if args[2] == "set"@ && args[3] == "dns"@ && args[5] == "dhcp"@ && args.len() == 6 {
        AdapterView { servers: None, ..adapter }
    } else if args[2] == "set"@ && args[3] == "dns"@ && args.len() == 6 {
        AdapterView { servers: Some(seq![args[5]]), ..adapter }
    } else if args[2] == "add"@ && args[3] == "dns"@ && args.len() == 6 {
        let others = match adapter.servers {
            Some(servers) => servers,
            None => seq![],
        };
        AdapterView { servers: Some(others.push(args[5])), ..adapter }
    } else {
        adapter
    }
}

/// An adapter after all steps of a plan. A backup is not part of an adapter.
pub open spec fn performed(adapter: AdapterView, name: Seq<char>, steps: Seq<StepView>) -> AdapterView
    decreases steps.len(),
{
    if steps.len() == 0 {
        adapter
    } else {
        let before = performed(adapter, name, steps.drop_last());
        match steps.last() {
            StepView::Netsh(args) => executed(before, name, args),
            _ => before,
        }
    }
}

proof fn lemma_performed_push(adapter: AdapterView, name: Seq<char>, steps: Seq<StepView>, step: StepView)
    ensures
        performed(adapter, name, steps.push(step)) == match step {
            StepView::Netsh(args) => executed(performed(adapter, name, steps), name, args),
            _ => performed(adapter, name, steps),
        },
{
    assert(steps.push(step).drop_last() =~= steps);
}

proof fn lemma_words_differ()
    ensures
        "set"@ != "add"@,
        "address"@ != "dns"@,
        "static"@ != "dhcp"@,
{
    reveal_strlit("set");
    reveal_strlit("add");
    reveal_strlit("address");
    reveal_strlit("dns");
    reveal_strlit("static");
    reveal_strlit("dhcp");
    assert("set"@[0] != "add"@[0]);
    assert("address"@[0] != "dns"@[0]);
    assert("static"@[0] != "dhcp"@[0]);
}

proof fn lemma_names_differ(a: Seq<char>, b: Seq<char>)
    requires
        a != b,
    ensures
        "name="@ + a != "name="@ + b,
{
    let p = "name="@;
    if p + a == p + b {
        assert((p + a).skip(p.len() as int) =~= a);
        assert((p + b).skip(p.len() as int) =~= b);
    }
}

/// The adapter is given the address, the mask and the gateway; no other adapter
/// is changed, and name servers stay.
pub proof fn lemma_static_executed(
    adapter: AdapterView,
    iface: Seq<char>,
    other: Seq<char>,
    ip: Seq<char>,
    mask: Seq<char>,
    gateway: Seq<char>,
)
    ensures
        executed(adapter, iface, static_args(iface, ip, mask, gateway)) == (AdapterView {
            fixed: Some(
                (
                    ip,
                    mask,
                    if text::trim_of(gateway).len() == 0 {
                        None
                    } else {
                        Some(text::trim_of(gateway))
                    },
                ),
            ),
            ..adapter
        }),
        other != iface ==> executed(adapter, other, static_args(iface, ip, mask, gateway)) == adapter,
{
    lemma_words_differ();
    if other != iface {
        lemma_names_differ(other, iface);
    }
}

proof fn lemma_dns_performed(
    adapter: AdapterView,
    iface: Seq<char>,
    other: Seq<char>,
    first: Seq<StepView>,
    dns: Seq<Seq<char>>,
)
    requires
        dns.len() > 0 ==> dns[0] != "dhcp"@,
    ensures
        performed(adapter, iface, first + dns_steps(iface, dns)) == (AdapterView {
            servers: if dns.len() == 0 {
                performed(adapter, iface, first).servers
            } else {
                Some(dns)
            },
            ..performed(adapter, iface, first)
        }),
        other != iface ==> performed(adapter, other, first + dns_steps(iface, dns)) == performed(adapter, other, first),
    decreases dns.len(),
{
    let steps = dns_steps(iface, dns);
    if dns.len() == 0 {
        assert(first + steps =~= first);
    } else {
        let init = dns.drop_last();
        let n = dns.len() - 1;
        lemma_dns_performed(adapter, iface, other, first, init);
        lemma_words_differ();
        if other != iface {
            lemma_names_differ(other, iface);
        }
        assert(first + steps =~= (first + dns_steps(iface, init)).push(StepView::Netsh(dns_args(iface, dns[n], n))));
        lemma_performed_push(
            adapter,
            iface,
            first + dns_steps(iface, init),
            StepView::Netsh(dns_args(iface, dns[n], n)),
        );
        lemma_performed_push(
            adapter,
            other,
            first + dns_steps(iface, init),
            StepView::Netsh(dns_args(iface, dns[n], n)),
        );
        if n == 0 {
            assert(seq![dns[0]] =~= dns);
        } else {
            assert(init.push(dns[n]) =~= dns);
        }
    }
}

/// A text is blank where it holds nothing but white space.
pub open spec fn is_blank(s: Seq<char>) -> bool {
    forall|i: int| 0 <= i < s.len() ==> text::is_space(#[trigger] s[i])
}

/// A text is another one with white space before and after it.
pub open spec fn is_padded(s: Seq<char>, before: Seq<char>, inner: Seq<char>, after: Seq<char>) -> bool {
    is_blank(before) && is_blank(after) && s == before + inner + after
}

/// A gateway as it is set: without the white space around it, and none where
/// it is blank.
pub open spec fn is_gateway(typed: Seq<char>, set: Option<Seq<char>>) -> bool {
    match set {
        None => is_blank(typed),
        Some(g) => {
            &&& g.len() > 0
            &&& !text::is_space(g[0])
            &&& !text::is_space(g.last())
            &&& exists|before: Seq<char>, after: Seq<char>| #[trigger] is_padded(typed, before, g, after)
        },
    }
}

proof fn lemma_gateway_set(typed: Seq<char>)
    ensures
        is_gateway(
            typed,
            if text::trim_of(typed).len() == 0 {
                None
            } else {
                Some(text::trim_of(typed))
            },
        ),
{
    let (before, after) = text::lemma_trim_parts(typed);
    let g = text::trim_of(typed);
    text::lemma_trimmed_ends(typed);
    if g.len() == 0 {
        assert forall|i: int| 0 <= i < typed.len() implies text::is_space(#[trigger] typed[i]) by {
            if i < before.len() {
                assert(typed[i] == before[i]);
            } else {
                assert(typed[i] == after[i - before.len()]);
            }
        }
    } else {
        assert(is_padded(typed, before, g, after));
    }
}

/// The steps of a revert, carried out on an adapter with whatever settings,
/// leave it with those that were saved: the address, mask and gateway, or an
/// address from DHCP, and the name servers that were set, or those from DHCP.
/// A fixed address without servers leaves the servers as they are. Every other
/// adapter stays as it is. There is one command for the address and one for
/// each server, or one that lets them come from DHCP, and the backup is deleted
/// last. The one thing that cannot be put back is a first name server by the
/// word that stands for DHCP in a command.
pub proof fn lemma_revert_restores(iface: Seq<char>, config: ConfigView, adapter: AdapterView, other: Seq<char>)
    requires
        ({
            let sets_servers = if config.dhcp {
                config.static_dns
            } else {
                config.ip is Some && config.mask is Some
            };
            sets_servers && config.dns.len() > 0 ==> config.dns[0] != "dhcp"@
        }),
    ensures
        ({
            let steps = revert_steps(iface, config);
            let after = performed(adapter, iface, steps);
            let n = steps.len() - 1;
            &&& n >= 0
            &&& steps[n] is DeleteBackup
            &&& forall|i: int| 0 <= i < n ==> #[trigger] steps[i] is Netsh
            &&& other != iface ==> performed(adapter, other, steps) == adapter
            &&& config.dhcp ==> {
                &&& after.fixed is None
                &&& config.static_dns && config.dns.len() > 0 ==> after.servers == Some(config.dns) && n == 1
                    + config.dns.len()
                &&& !(config.static_dns && config.dns.len() > 0) ==> after.servers is None && n == 2
            }
            &&& !config.dhcp && config.ip is Some && config.mask is Some ==> {
                &&& after.fixed matches Some((ip, mask, gateway))
                &&& ip == config.ip->0
                &&& mask == config.mask->0
                &&& config.gateway is None ==> gateway is None
                &&& config.gateway is Some ==> is_gateway(config.gateway->0, gateway)
                &&& after.servers == (if config.dns.len() > 0 {
                    Some(config.dns)
                } else {
                    adapter.servers
                })
                &&& n == 1 + config.dns.len()
            }
            &&& !config.dhcp && (config.ip is None || config.mask is None) ==> n == 0 && after == adapter
        }),
{
    let steps = restore_steps(iface, config);
    let all = revert_steps(iface, config);
    lemma_words_differ();
    if other != iface {
        lemma_names_differ(other, iface);
    }
    lemma_performed_push(adapter, iface, steps, StepView::DeleteBackup);
    lemma_performed_push(adapter, other, steps, StepView::DeleteBackup);
    assert(performed(adapter, iface, seq![]) == adapter);
    assert(performed(adapter, other, seq![]) == adapter);
    if config.dhcp {
        let first = StepView::Netsh(dhcp_args(iface, "address"@));
        let one = Seq::<StepView>::empty().push(first);
        lemma_performed_push(adapter, iface, seq![], first);
        lemma_performed_push(adapter, other, seq![], first);
        assert(seq![first] =~= one);
        if own_servers(config) {
            lemma_dns_performed(adapter, iface, other, one, config.dns);
        } else {
            let second = StepView::Netsh(dhcp_args(iface, "dns"@));
            lemma_performed_push(adapter, iface, one, second);
            lemma_performed_push(adapter, other, one, second);
            assert(steps =~= one.push(second));
        }
    } else if config.ip is Some && config.mask is Some {
        let gateway = or_empty(config.gateway);
        let first = StepView::Netsh(static_args(iface, config.ip->0, config.mask->0, gateway));
        let one = Seq::<StepView>::empty().push(first);
        lemma_performed_push(adapter, iface, seq![], first);
        lemma_performed_push(adapter, other, seq![], first);
        assert(seq![first] =~= one);
        lemma_static_executed(adapter, iface, other, config.ip->0, config.mask->0, gateway);
        lemma_gateway_set(gateway);
        lemma_dns_performed(adapter, iface, other, one, config.dns);
        if config.gateway is None {
            assert(text::trim_of(gateway).len() == 0);
        }
    }
}

/// What was saved before a change is put back by a revert: the configuration
/// of the backup is the one that was read, and only a backup in another format
/// is not gone back to.
pub proof fn lemma_backup_holds(config: ConfigView, stored: Option<BackupView>)
    ensures
        usable(Some(backup_of(config))) == Some(backup_of(config)),
        backup_of(config).config == config,
        backup_of(config).schema_version == SCHEMA_VERSION,
        match stored {
            Some(b) => if b.schema_version == SCHEMA_VERSION {
                usable(stored) == Some(b)
            } else {
                usable(stored) is None
            },
            None => usable(stored) is None,
        },
{
}

/// The steps of a plan to apply, carried out on an adapter with whatever
/// settings, give it the address, the mask and the gateway that were typed, and
/// leave its name servers and every other adapter as they are. There is one
/// command, which comes last, and nothing before it but the backup, where there
/// is none yet.
pub proof fn lemma_apply_sets(
    iface: Seq<char>,
    ip: Seq<char>,
    mask: Seq<char>,
    gateway: Seq<char>,
    has_backup: bool,
    adapter: AdapterView,
    other: Seq<char>,
)
    ensures
        ({
            let steps = apply_steps(iface, ip, mask, gateway, has_backup);
            let after = performed(adapter, iface, steps);
            &&& after.fixed matches Some((i, m, g)) && i == ip && m == mask && is_gateway(gateway, g)
            &&& after.servers == adapter.servers
            &&& other != iface ==> performed(adapter, other, steps) == adapter
            &&& steps.len() == (if has_backup {
                1int
            } else {
                2
            })
            &&& steps.last() is Netsh
            &&& !has_backup ==> steps[0] is SaveBackup
        }),
{
    let command = StepView::Netsh(static_args(iface, ip, mask, gateway));
    let steps = apply_steps(iface, ip, mask, gateway, has_backup);
    let before = steps.drop_last();
    assert(steps =~= before.push(command));
    lemma_performed_push(adapter, iface, before, command);
    lemma_performed_push(adapter, other, before, command);
    if !has_backup {
        assert(before =~= Seq::<StepView>::empty().push(StepView::SaveBackup));
        lemma_performed_push(adapter, iface, seq![], StepView::SaveBackup);
        lemma_performed_push(adapter, other, seq![], StepView::SaveBackup);
    }
    lemma_static_executed(adapter, iface, other, ip, mask, gateway);
    lemma_gateway_set(gateway);
}

/// The one command of a plan to apply carries the address and the mask and,
/// unless the gateway is blank, the gateway as its last argument. Two requests
/// that differ in the address, the mask or the trimmed gateway never have the
/// same plan.
pub proof fn lemma_apply_says_all(
    iface: Seq<char>,
    a: (Seq<char>, Seq<char>, Seq<char>),
    b: (Seq<char>, Seq<char>, Seq<char>),
    has_backup: bool,
)
    ensures
        ({
            let command = apply_steps(iface, a.0, a.1, a.2, has_backup).last()->Netsh_0;
            let n = command.len();
            &&& is_blank(a.2) ==> n == 8 && command[6] == a.0 && command[7] == a.1
            &&& !is_blank(a.2) ==> n == 9 && command[6] == a.0 && command[7] == a.1 && command[8] == text::trim_of(a.2)
        }),
        apply_steps(iface, a.0, a.1, a.2, has_backup) == apply_steps(iface, b.0, b.1, b.2, has_backup) ==> {
            &&& a.0 == b.0
            &&& a.1 == b.1
            &&& text::trim_of(a.2) == text::trim_of(b.2)
        },
{
    lemma_gateway_set(a.2);
    let (before, after) = text::lemma_trim_parts(a.2);
    let g = text::trim_of(a.2);
    if g.len() > 0 {
        text::lemma_trimmed_ends(a.2);
        assert(a.2[before.len() as int] == g[0]);
    }
    let sa = apply_steps(iface, a.0, a.1, a.2, has_backup);
    let sb = apply_steps(iface, b.0, b.1, b.2, has_backup);
    if sa == sb {
        let ca = sa.last()->Netsh_0;
        let cb = sb.last()->Netsh_0;
        assert(ca == static_args(iface, a.0, a.1, a.2));
        assert(cb == static_args(iface, b.0, b.1, b.2));
        assert(ca[6] == cb[6] && ca[7] == cb[7] && ca.len() == cb.len());
        if ca.len() == 9 {
            assert(ca[8] == cb[8]);
        } else {
            assert(text::trim_of(a.2) =~= text::trim_of(b.2));
        }
    }
}

/// The name of a backup file is that of the interface, with an underscore in
/// place of every character other than an ASCII letter or digit, a dash or an
/// underscore, between the prefix and the suffix of all backups.
pub proof fn lemma_file_name(name: Seq<char>, i: int)
    requires
        0 <= i < name.len(),
    ensures
        file_name_of(name) == "ip-config-tool-backup-"@ + sanitized(name) + ".json"@,
        sanitized(name)[i] == if 'a' <= name[i] <= 'z' || 'A' <= name[i] <= 'Z' || '0' <= name[i] <= '9' || name[i] == '-'
            || name[i] == '_' {
            name[i]
        } else {
            '_'
        },
{
}

/// One file more is one backup more, last, exactly where its name is that of a
/// backup and what it holds is one in the present format.
pub proof fn lemma_orphans_one_more(
    entries: Seq<(Seq<char>, Option<BackupView>)>,
    name: Seq<char>,
    stored: Option<BackupView>,
)
    ensures
        orphans(entries.push((name, stored))) == match stored {
            Some(b) if b.schema_version == SCHEMA_VERSION && text::starts(name, "ip-config-tool-backup-"@) && text::ends(
                name,
                ".json"@,
            ) => orphans(entries).push(b),
            _ => orphans(entries),
        },
        orphans(seq![]).len() == 0,
{
    assert(entries.push((name, stored)).drop_last() =~= entries);
}

} // verus!
