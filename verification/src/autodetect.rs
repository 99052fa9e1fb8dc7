//! Trying one subnet after the other until a device answers. What to do next
//! is decided here, from what the last action gave; the actions themselves,
//! which change the interface and ask the network, are carried out elsewhere.
use crate::netconfig;
use crate::scanner;
use crate::scanner::{ScanResult, ScanView};
use crate::subnets;
use crate::subnets::{CustomSubnet, SubnetView};
use crate::text;
use vstd::prelude::*;

verus! {

/// The subnets that are common, by their first three octets and their mask, in
/// the order in which they are tried.
pub const CANDIDATES: [(&'static str, &'static str); 6] = [
    ("192.168.1", "255.255.255.0"),
    ("192.168.0", "255.255.255.0"),
    ("192.168.10", "255.255.255.0"),
    ("10.0.0", "255.255.255.0"),
    ("10.0.1", "255.255.255.0"),
    ("172.16.0", "255.255.255.0"),
];

/// The last octet of the address that the interface takes while a subnet is
/// tried: a high one, so that it is not likely to be that of a device.
pub const PROBE_HOST_OCTET: u8 = 250;

/// What is told of a search while it runs.
#[derive(Debug, Clone, PartialEq)]
pub enum AutoDetectEvent {
    TryingCandidate { base: String, mask: String },
    CandidateResult { base: String, host_count: usize },
    Found { base: String, mask: String },
    NotFound,
    Cancelled,
    Error(String),
}

/// The contents of an `AutoDetectEvent`.
pub enum EventView {
    TryingCandidate { base: Seq<char>, mask: Seq<char> },
    CandidateResult { base: Seq<char>, host_count: nat },
    Found { base: Seq<char>, mask: Seq<char> },
    NotFound,
    Cancelled,
    Error(Seq<char>),
}

impl View for AutoDetectEvent {
    type V = EventView;

    open spec fn view(&self) -> EventView {
        match self {
            AutoDetectEvent::TryingCandidate { base, mask } => EventView::TryingCandidate { base: base@, mask: mask@ },
            AutoDetectEvent::CandidateResult { base, host_count } => EventView::CandidateResult {
                base: base@,
                host_count: *host_count as nat,
            },
            AutoDetectEvent::Found { base, mask } => EventView::Found { base: base@, mask: mask@ },
            AutoDetectEvent::NotFound => EventView::NotFound,
            AutoDetectEvent::Cancelled => EventView::Cancelled,
            AutoDetectEvent::Error(e) => EventView::Error(e@),
        }
    }
}

/// The contents of each of a list of events.
pub open spec fn event_views(events: Seq<AutoDetectEvent>) -> Seq<EventView> {
    events.map_values(|e: AutoDetectEvent| e@)
}

// ---------------------------------------------------------------------------
// Candidates
// ---------------------------------------------------------------------------

/// The contents of each of a list of pairs of string slices.
pub open spec fn slice_pairs(pairs: Seq<(&str, &str)>) -> Seq<(Seq<char>, Seq<char>)> {
    pairs.map_values(|p: (&str, &str)| (p.0@, p.1@))
}

/// The subnets to try: those that the user saved, then the common ones.
pub open spec fn candidate_list(saved: Seq<SubnetView>) -> Seq<(Seq<char>, Seq<char>)> {
    saved.map_values(|c: SubnetView| (c.base, c.mask)) + slice_pairs(CANDIDATES@)
}

/// Lists the subnets to try.
pub fn candidates(saved: &[CustomSubnet]) -> (r: Vec<(String, String)>)
    ensures
        scanner::pair_views(r@) == candidate_list(subnets::subnet_views(saved@)),
{
    let ghost all = candidate_list(subnets::subnet_views(saved@));
    let common: [(&'static str, &'static str); 6] = CANDIDATES;
    let mut out: Vec<(String, String)> = Vec::new();
    let mut i: usize = 0;
    assert(scanner::pair_views(out@) =~= all.take(0));
    while i < saved.len()
        invariant
            all == candidate_list(subnets::subnet_views(saved@)),
            i <= saved@.len(),
            scanner::pair_views(out@) == all.take(i as int),
        decreases saved@.len() - i,
    {
        let ghost before = out@;
        let pair = (saved[i].base.clone(), saved[i].mask.clone());
        out.push(pair);
        assert(subnets::subnet_views(saved@)[i as int] == saved@[i as int]@);
        assert(all[i as int] == (pair.0@, pair.1@));
        assert(scanner::pair_views(out@) =~= scanner::pair_views(before).push((pair.0@, pair.1@)));
        assert(all.take(i + 1) =~= all.take(i as int).push(all[i as int]));
        i += 1;
    }
    let mut k: usize = 0;
    while k < 6
        invariant
            all == candidate_list(subnets::subnet_views(saved@)),
            common@ == CANDIDATES@,
            k <= 6,
            scanner::pair_views(out@) == all.take(saved@.len() + k),
        decreases 6 - k,
    {
        let ghost before = out@;
        let ghost at = saved@.len() + k;
        let pair = (common[k].0.to_owned(), common[k].1.to_owned());
        out.push(pair);
        assert(all[at] == slice_pairs(CANDIDATES@)[k as int]);
        assert(all[at] == (pair.0@, pair.1@));
        assert(scanner::pair_views(out@) =~= scanner::pair_views(before).push((pair.0@, pair.1@)));
        assert(all.take(at + 1) =~= all.take(at).push(all[at]));
        k += 1;
    }
    assert(all.take(saved@.len() + k) =~= all);
    out
}

/// The address that the interface takes while the subnet `base` is tried.
pub open spec fn probe_of(base: Seq<char>) -> Seq<char> {
    base + "."@ + text::decimal(PROBE_HOST_OCTET as nat)
}

/// Writes the address that the interface takes while a subnet is tried.
pub fn probe_ip(base: &str) -> (r: String)
    ensures
        r@ == probe_of(base@),
{
    let mut out = base.to_owned();
    out.append(".");
    text::push_decimal(&mut out, PROBE_HOST_OCTET as u64);
    out
}

/// The arguments to `netsh` that give the interface its address on a subnet
/// that is tried: without a gateway.
pub fn probe_args(iface: &str, ip: &str, mask: &str) -> (r: Vec<String>)
    ensures
        text::string_views(r@) == netconfig::static_args(iface@, ip@, mask@, seq![]),
        r@.len() == 8,
{
    proof {
        reveal_strlit("");
        assert(""@ =~= seq![]);
    }
    let args = netconfig::apply_static(iface, ip, mask, "");
    assert(text::string_views(args@).len() == args@.len());
    args
}

/// Some host other than the interface itself answered.
pub open spec fn has_match(probe: Seq<char>, results: Seq<ScanView>) -> bool {
    exists|i: int| 0 <= i < results.len() && (#[trigger] results[i]).ip != probe
}

/// Tells whether a live device was found on a subnet: whether some result is
/// not the address that the interface itself has taken.
pub fn candidate_has_match(base: &str, probe_ip: &str, results: &[ScanResult]) -> (r: bool)
    ensures
        r == has_match(probe_ip@, scanner::scan_views(results@)),
{
    let ghost v = scanner::scan_views(results@);
    let mut i: usize = 0;
    while i < results.len()
        invariant
            v == scanner::scan_views(results@),
            i <= results@.len(),
            forall|j: int| 0 <= j < i ==> (#[trigger] v[j]).ip == probe_ip@,
        decreases results@.len() - i,
    {
        assert(v[i as int] == results@[i as int]@);
        if !text::str_same(results[i].ip.as_str(), probe_ip) {
            return true;
        }
        i += 1;
    }
    false
}

/// The first subnet on which a device answered, where `results[i]` is what was
/// found on subnet number `i`.
pub open spec fn picked(
    candidates: Seq<(Seq<char>, Seq<char>)>,
    results: Seq<Seq<ScanView>>,
) -> Option<(Seq<char>, Seq<char>)>
    decreases results.len(),
{
    if results.len() == 0 {
        None
    } else {
        let last = results.len() - 1;
        match picked(candidates, results.drop_last()) {
            Some(c) => Some(c),
            None => if has_match(probe_of(candidates[last].0), results[last]) {
                Some(candidates[last])
            } else {
                None
            },
        }
    }
}

/// The contents of each of a list of lists of results.
pub open spec fn scan_lists(results: Seq<Vec<ScanResult>>) -> Seq<Seq<ScanView>> {
    results.map_values(|r: Vec<ScanResult>| scanner::scan_views(r@))
}

/// These are results that `scan_candidate` can give for the first subnets.
pub open spec fn scanned<F: FnMut(&str, &str) -> Vec<ScanResult>>(
    candidates: Seq<(&str, &str)>,
    scan_candidate: F,
    results: Seq<Vec<ScanResult>>,
) -> bool {
    results.len() <= candidates.len() && forall|i: int|
        0 <= i < results.len() ==> call_ensures(
            scan_candidate,
            (candidates[i].0, candidates[i].1),
            #[trigger] results[i],
        )
}

/// Scans one subnet after the other until a device answers, and gives that
/// subnet. No subnet after it is scanned; without an answer all are.
pub fn pick_match<F: FnMut(&str, &str) -> Vec<ScanResult>>(
    candidates: &[(&str, &str)],
    mut scan_candidate: F,
) -> (r: Option<(String, String)>)
    requires
        forall|i: int|
            0 <= i < candidates@.len() ==> call_requires(
                scan_candidate,
                ((#[trigger] candidates@[i]).0, candidates@[i].1),
            ),
    ensures
        exists|results: Seq<Vec<ScanResult>>|
            {
                &&& #[trigger] scanned(candidates@, scan_candidate, results)
                &&& picked(slice_pairs(candidates@), scan_lists(results)) == (match r {
                    Some(c) => Some((c.0@, c.1@)),
                    None => None,
                })
                &&& scanned_until_match(slice_pairs(candidates@), scan_lists(results))
            },
{
    let ghost f = scan_candidate;
    let ghost mut results: Seq<Vec<ScanResult>> = seq![];
    let mut hit: Option<(String, String)> = None;
    let mut i: usize = 0;
    while i < candidates.len() && hit.is_none()
        invariant
            scan_candidate == f,
            forall|j: int|
                0 <= j < candidates@.len() ==> call_requires(f, ((#[trigger] candidates@[j]).0, candidates@[j].1)),
            i <= candidates@.len(),
            results.len() == i,
            scanned(candidates@, f, results),
            picked(slice_pairs(candidates@), scan_lists(results)) == (match hit {
                Some(c) => Some((c.0@, c.1@)),
                None => None,
            }),
            hit is Some ==> results.len() > 0 && picked(
                slice_pairs(candidates@),
                scan_lists(results.drop_last()),
            ) is None,
        decreases candidates@.len() - i,
    {
        let (base, mask) = candidates[i];
        let probe = probe_ip(base);
        let found = scan_candidate(base, mask);
        let ghost before = results;
        proof {
            results = results.push(found);
            assert(scan_lists(results).drop_last() =~= scan_lists(before));
            assert(results.drop_last() =~= before);
            assert(slice_pairs(candidates@)[i as int] == (base@, mask@));
        }
        if candidate_has_match(base, probe.as_str(), found.as_slice()) {
            hit = Some((base.to_owned(), mask.to_owned()));
        }
        i += 1;
    }
    assert(results.len() > 0 ==> scan_lists(results).drop_last() =~= scan_lists(results.drop_last()));
    hit
}

// ---------------------------------------------------------------------------
// The search
// ---------------------------------------------------------------------------

/// What is handed to a search.
#[derive(Debug, PartialEq)]
pub enum Input {
    /// Go on with the next subnet; `cancelled` tells whether the user has
    /// asked to stop.
    Next { cancelled: bool },
    /// The interface was given its address on the subnet, or that failed.
    Applied(Result<(), String>),
    /// The subnet was swept, with these results.
    Swept(Vec<ScanResult>),
}

/// The contents of an `Input`.
pub enum InputView {
    Next { cancelled: bool },
    Applied(Result<(), Seq<char>>),
    Swept(Seq<ScanView>),
}

impl View for Input {
    type V = InputView;

    open spec fn view(&self) -> InputView {
        match self {
            Input::Next { cancelled } => InputView::Next { cancelled: *cancelled },
            Input::Applied(Ok(_)) => InputView::Applied(Ok(())),
            Input::Applied(Err(e)) => InputView::Applied(Err(e@)),
            Input::Swept(results) => InputView::Swept(scanner::scan_views(results@)),
        }
    }
}

/// What is to be done next for a search.
#[derive(Debug, Clone, PartialEq)]
pub enum Action {
    /// Give the interface this address and mask, without a gateway.
    Apply { ip: String, mask: String },
    /// Sweep the subnet.
    Sweep { base: String },
    /// Go on with the next subnet.
    Continue,
    /// Put the saved configuration back. The search is over.
    Restore,
    /// Leave the interface as it is. The search is over.
    Stop,
}

/// The contents of an `Action`.
pub enum ActionView {
    Apply { ip: Seq<char>, mask: Seq<char> },
    Sweep { base: Seq<char> },
    Continue,
    Restore,
    Stop,
}

impl View for Action {
    type V = ActionView;

    open spec fn view(&self) -> ActionView {
        match self {
            Action::Apply { ip, mask } => ActionView::Apply { ip: ip@, mask: mask@ },
            Action::Sweep { base } => ActionView::Sweep { base: base@ },
            Action::Continue => ActionView::Continue,
            Action::Restore => ActionView::Restore,
            Action::Stop => ActionView::Stop,
        }
    }
}

/// What a search waits for.
#[derive(Debug, Clone, Copy, PartialEq, Eq, Structural)]
pub enum Phase {
    /// To be told to go on.
    Ready,
    /// To hear whether the interface has its address.
    Applying,
    /// To hear what the sweep has found.
    Sweeping,
    /// Nothing: it is over.
    Done,
}

/// A search: the subnets, the number of the one that is tried, and what it
/// waits for.
pub struct DetectView {
    pub candidates: Seq<(Seq<char>, Seq<char>)>,
    pub next: nat,
    pub phase: Phase,
}

/// The input is of the kind that the search waits for.
pub open spec fn fits(phase: Phase, input: InputView) -> bool {
    match input {
        InputView::Next { .. } => phase is Ready,
        InputView::Applied(_) => phase is Applying,
        InputView::Swept(_) => phase is Sweeping,
    }
}

impl DetectView {
    /// The search at its beginning.
    pub open spec fn begun(candidates: Seq<(Seq<char>, Seq<char>)>) -> DetectView {
        DetectView { candidates: candidates, next: 0, phase: Phase::Ready }
    }

    /// A subnet is being tried wherever an answer is awaited.
    pub open spec fn ok(self) -> bool {
        &&& self.next <= self.candidates.len()
        &&& self.phase is Applying || self.phase is Sweeping ==> self.next < self.candidates.len()
    }

    /// The same search, waiting for something else.
    pub open spec fn waiting(self, phase: Phase) -> DetectView {
        DetectView { phase: phase, ..self }
    }

    /// The search after an input, what it tells and what it asks for.
    pub open spec fn stepped(self, input: InputView) -> (DetectView, Seq<EventView>, ActionView) {
        let base = self.candidates[self.next as int].0;
        let mask = self.candidates[self.next as int].1;
        match input {
            InputView::Next { cancelled } => if self.next >= self.candidates.len() {
                (self.waiting(Phase::Done), seq![EventView::NotFound], ActionView::Restore)
            } else if cancelled {
                (self.waiting(Phase::Done), seq![EventView::Cancelled], ActionView::Restore)
            } else {
                (
                    self.waiting(Phase::Applying),
                    seq![EventView::TryingCandidate { base: base, mask: mask }],
                    ActionView::Apply { ip: probe_of(base), mask: mask },
                )
            },
            InputView::Applied(Ok(_)) => (
                self.waiting(Phase::Sweeping),
                seq![],
                ActionView::Sweep { base: base },
            ),
            InputView::Applied(Err(e)) => (
                self.waiting(Phase::Done),
                seq![EventView::Error("Failed to probe "@ + base + ".0/24: "@ + e)],
                ActionView::Restore,
            ),
            InputView::Swept(results) => {
                let told = EventView::CandidateResult { base: base, host_count: results.len() };
                if has_match(probe_of(base), results) {
                    (
                        self.waiting(Phase::Done),
                        seq![told, EventView::Found { base: base, mask: mask }],
                        ActionView::Stop,
                    )
                } else {
                    (
                        DetectView { next: self.next + 1, phase: Phase::Ready, ..self },
                        seq![told],
                        ActionView::Continue,
                    )
                }
            },
        }
    }
}

/// A search for a subnet on which a device answers.
pub struct Detector {
    candidates: Vec<(String, String)>,
    next: usize,
    phase: Phase,
}

impl View for Detector {
    type V = DetectView;

    closed spec fn view(&self) -> DetectView {
        DetectView {
            candidates: scanner::pair_views(self.candidates@),
            next: self.next as nat,
            phase: self.phase,
        }
    }
}

impl Detector {
    /// Starts a search over these subnets. A backup of the configuration is to
    /// be saved before.
    pub fn new(candidates: Vec<(String, String)>) -> (r: Detector)
        ensures
            r@ == DetectView::begun(scanner::pair_views(candidates@)),
            r@.ok(),
    {
        Detector { candidates: candidates, next: 0, phase: Phase::Ready }
    }

    /// What the search waits for.
    pub fn phase(&self) -> (r: Phase)
        ensures
            r == self@.phase,
    {
        self.phase
    }

    fn finish(&mut self, event: AutoDetectEvent) -> (r: (Vec<AutoDetectEvent>, Action))
        ensures
            final(self)@ == old(self)@.waiting(Phase::Done),
            event_views(r.0@) == seq![event@],
            r.1@ == ActionView::Restore,
    {
        self.phase = Phase::Done;
        (one(event), Action::Restore)
    }
}

/// Takes an input, and tells what there is to tell and what to do next.
pub fn run(search: &mut Detector, input: Input) -> (r: (Vec<AutoDetectEvent>, Action))
    requires
        old(search)@.ok(),
        fits(old(search)@.phase, input@),
    ensures
        final(search)@.ok(),
        (final(search)@, event_views(r.0@), r.1@) == old(search)@.stepped(input@),
{
    let n: usize = search.candidates.len();
    match input {
        Input::Next { cancelled } => {
            if search.next >= n {
                search.finish(AutoDetectEvent::NotFound)
            } else if cancelled {
                search.finish(AutoDetectEvent::Cancelled)
            } else {
                let base = search.candidates[search.next].0.clone();
                let mask = search.candidates[search.next].1.clone();
                let action = Action::Apply { ip: probe_ip(base.as_str()), mask: mask.clone() };
                search.phase = Phase::Applying;
                (one(AutoDetectEvent::TryingCandidate { base: base, mask: mask }), action)
            }
        },
        Input::Applied(Ok(_)) => {
            let base = search.candidates[search.next].0.clone();
            search.phase = Phase::Sweeping;
            (none(), Action::Sweep { base: base })
        },
        Input::Applied(Err(e)) => {
            let mut message = "Failed to probe ".to_owned();
            message.append(search.candidates[search.next].0.as_str());
            message.append(".0/24: ");
            message.append(e.as_str());
            search.finish(AutoDetectEvent::Error(message))
        },
        Input::Swept(results) => {
            let base = search.candidates[search.next].0.clone();
            let mask = search.candidates[search.next].1.clone();
            let probe = probe_ip(base.as_str());
            let told = AutoDetectEvent::CandidateResult { base: base.clone(), host_count: results.len() };
            if candidate_has_match(base.as_str(), probe.as_str(), results.as_slice()) {
                let found = AutoDetectEvent::Found { base: base, mask: mask };
                search.phase = Phase::Done;
                (two(told, found), Action::Stop)
            } else {
                search.next = search.next + 1;
                search.phase = Phase::Ready;
                (one(told), Action::Continue)
            }
        },
    }
}

fn none() -> (r: Vec<AutoDetectEvent>)
    ensures
        event_views(r@) == Seq::<EventView>::empty(),
{
    let out: Vec<AutoDetectEvent> = Vec::new();
    assert(event_views(out@) =~= Seq::<EventView>::empty());
    out
}

fn one(event: AutoDetectEvent) -> (r: Vec<AutoDetectEvent>)
    ensures
        event_views(r@) == seq![event@],
{
    let out = vec![event];
    assert(event_views(out@) =~= seq![event@]);
    out
}

fn two(first: AutoDetectEvent, second: AutoDetectEvent) -> (r: Vec<AutoDetectEvent>)
    ensures
        event_views(r@) == seq![first@, second@],
{
    let out = vec![first, second];
    assert(event_views(out@) =~= seq![first@, second@]);
    out
}

// ---------------------------------------------------------------------------
// Laws
// ---------------------------------------------------------------------------

/// The subnet that is picked is one on which a device answered, and on none of
/// those before it did one answer; none is picked only where none did.
pub proof fn lemma_picked(candidates: Seq<(Seq<char>, Seq<char>)>, results: Seq<Seq<ScanView>>)
    requires
        results.len() <= candidates.len(),
    ensures
        match picked(candidates, results) {
            Some(c) => exists|k: int|
                {
                    &&& 0 <= k < results.len()
                    &&& #[trigger] candidates[k] == c
                    &&& has_match(probe_of(c.0), results[k])
                    &&& forall|j: int| 0 <= j < k ==> !has_match(probe_of((#[trigger] candidates[j]).0), results[j])
                },
            None => forall|j: int|
                0 <= j < results.len() ==> !has_match(probe_of((#[trigger] candidates[j]).0), results[j]),
        },
    decreases results.len(),
{
    if results.len() > 0 {
        let init = results.drop_last();
        let last = results.len() - 1;
        lemma_picked(candidates, init);
        match picked(candidates, init) {
            Some(c) => {
                let k = choose|k: int|
                    {
                        &&& 0 <= k < init.len()
                        &&& #[trigger] candidates[k] == c
                        &&& has_match(probe_of(c.0), init[k])
                        &&& forall|j: int| 0 <= j < k ==> !has_match(probe_of((#[trigger] candidates[j]).0), init[j])
                    };
                assert(init[k] == results[k]);
                assert forall|j: int| 0 <= j < k implies !has_match(
                    probe_of((#[trigger] candidates[j]).0),
                    results[j],
                ) by {
                    assert(init[j] == results[j]);
                }
            },
            None => {
                assert forall|j: int| 0 <= j < last implies !has_match(
                    probe_of((#[trigger] candidates[j]).0),
                    results[j],
                ) by {
                    assert(init[j] == results[j]);
                }
                assert(candidates[last] == candidates[last]);
            },
        }
    }
}

/// A search after a number of inputs, all that it told and all that it asked
/// for. An input that it does not wait for has no effect.
pub open spec fn ran(
    candidates: Seq<(Seq<char>, Seq<char>)>,
    inputs: Seq<InputView>,
) -> (DetectView, Seq<EventView>, Seq<ActionView>)
    decreases inputs.len(),
{
    if inputs.len() == 0 {
        (DetectView::begun(candidates), seq![], seq![])
    } else {
        let (state, events, actions) = ran(candidates, inputs.drop_last());
        if fits(state.phase, inputs.last()) {
            let (state, told, action) = state.stepped(inputs.last());
            (state, events + told, actions.push(action))
        } else {
            (state, events, actions)
        }
    }
}

/// The event ends a search.
pub open spec fn is_end(event: EventView) -> bool {
    event is Found || event is NotFound || event is Cancelled || event is Error
}

/// A search that is over has told how it ended, once and last. It has asked,
/// once and last, for the saved configuration to be put back, unless it found
/// a device: then it never asks for that. While a search is not over it has
/// done neither.
pub proof fn lemma_restored_unless_found(candidates: Seq<(Seq<char>, Seq<char>)>, inputs: Seq<InputView>)
    ensures
        ({
            let (state, events, actions) = ran(candidates, inputs);
            let n = if state.phase is Done {
                events.len() - 1
            } else {
                events.len() as int
            };
            let m = if state.phase is Done {
                actions.len() - 1
            } else {
                actions.len() as int
            };
            &&& state.ok()
            &&& state.candidates == candidates
            &&& forall|i: int| 0 <= i < n ==> !is_end(#[trigger] events[i])
            &&& forall|i: int| 0 <= i < m ==> !(#[trigger] actions[i] is Restore) && !(actions[i] is Stop)
            &&& state.phase is Done ==> {
                &&& events.len() > 0
                &&& actions.len() > 0
                &&& is_end(events.last())
                &&& actions.last() is Restore || actions.last() is Stop
                &&& actions.last() is Stop <==> events.last() is Found
            }
        }),
    decreases inputs.len(),
{
    if inputs.len() > 0 {
        lemma_restored_unless_found(candidates, inputs.drop_last());
        let (before, events, actions) = ran(candidates, inputs.drop_last());
        let input = inputs.last();
        if fits(before.phase, input) {
            let (after, told, action) = before.stepped(input);
            let all = events + told;
            assert(!(before.phase is Done));
            assert forall|i: int| 0 <= i < events.len() implies !is_end(#[trigger] all[i]) by {
                assert(all[i] == events[i]);
            }
            if told.len() > 0 {
                assert(all[events.len() as int] == told[0]);
                assert(all.last() == told.last());
            }
            let done = actions.push(action);
            assert forall|i: int| 0 <= i < actions.len() implies !(#[trigger] done[i] is Restore) && !(done[i] is Stop)
            by {
                assert(done[i] == actions[i]);
            }
        }
    }
}

/// The inputs of a search that nothing disturbs: it is never cancelled, the
/// interface takes every address, and the sweeps give these results.
pub open spec fn undisturbed(results: Seq<Seq<ScanView>>) -> Seq<InputView>
    decreases results.len(),
{
    if results.len() == 0 {
        seq![]
    } else {
        undisturbed(results.drop_last()).push(InputView::Next { cancelled: false }).push(
            InputView::Applied(Ok(())),
        ).push(InputView::Swept(results.last()))
    }
}

/// The subnets that have been announced, in their order.
pub open spec fn announced(events: Seq<EventView>) -> Seq<(Seq<char>, Seq<char>)>
    decreases events.len(),
{
    if events.len() == 0 {
        seq![]
    } else {
        match events.last() {
            EventView::TryingCandidate { base, mask } => announced(events.drop_last()).push((base, mask)),
            _ => announced(events.drop_last()),
        }
    }
}

/// The addresses and masks that the interface has been given, in their order.
pub open spec fn addresses(actions: Seq<ActionView>) -> Seq<(Seq<char>, Seq<char>)>
    decreases actions.len(),
{
    if actions.len() == 0 {
        seq![]
    } else {
        match actions.last() {
            ActionView::Apply { ip, mask } => addresses(actions.drop_last()).push((ip, mask)),
            _ => addresses(actions.drop_last()),
        }
    }
}

/// The address and mask that the interface takes for each of the subnets.
pub open spec fn probes(candidates: Seq<(Seq<char>, Seq<char>)>) -> Seq<(Seq<char>, Seq<char>)> {
    candidates.map_values(|c: (Seq<char>, Seq<char>)| (probe_of(c.0), c.1))
}

/// A search that nothing disturbs finds the subnet that is picked from the
/// results of its sweeps, as soon as those results pick one. It announces just
/// the subnets that it sweeps, in their order, and gives the interface an
/// address on each of them, the last of which is on the subnet that it finds.
pub proof fn lemma_search_picks(candidates: Seq<(Seq<char>, Seq<char>)>, results: Seq<Seq<ScanView>>)
    requires
        results.len() <= candidates.len(),
        results.len() > 0 ==> picked(candidates, results.drop_last()) is None,
    ensures
        ({
            let (state, events, actions) = ran(candidates, undisturbed(results));
            let swept = candidates.take(results.len() as int);
            &&& announced(events) == swept
            &&& addresses(actions) == probes(swept)
            &&& match picked(candidates, results) {
                Some(c) => {
                    &&& state.phase is Done
                    &&& events.len() > 0 && events.last() == (EventView::Found { base: c.0, mask: c.1 })
                    &&& actions.len() > 0 && actions.last() == ActionView::Stop
                    &&& addresses(actions).len() > 0 && addresses(actions).last() == (probe_of(c.0), c.1)
                },
                None => state == (DetectView {
                    candidates: candidates,
                    next: results.len(),
                    phase: Phase::Ready,
                }),
            }
        }),
    decreases results.len(),
{
    let swept = candidates.take(results.len() as int);
    if results.len() == 0 {
        assert(swept =~= seq![]);
        assert(probes(swept) =~= seq![]);
    } else {
        let init = results.drop_last();
        let last = results.len() - 1;
        if init.len() > 0 {
            assert(picked(candidates, init.drop_last()) is None);
        }
        lemma_search_picks(candidates, init);
        let inputs0 = undisturbed(init);
        let inputs1 = inputs0.push(InputView::Next { cancelled: false });
        let inputs2 = inputs1.push(InputView::Applied(Ok(())));
        let inputs3 = inputs2.push(InputView::Swept(results.last()));
        assert(inputs1.drop_last() =~= inputs0);
        assert(inputs2.drop_last() =~= inputs1);
        assert(inputs3.drop_last() =~= inputs2);
        let (s0, e0, a0) = ran(candidates, inputs0);
        let (s1, e1, a1) = ran(candidates, inputs1);
        assert(s1 == s0.waiting(Phase::Applying));
        let (s2, e2, a2) = ran(candidates, inputs2);
        assert(s2 == s1.waiting(Phase::Sweeping));
        assert(undisturbed(results) == inputs3);
        let (s3, e3, a3) = ran(candidates, inputs3);
        let c = candidates[last];
        let before = candidates.take(last);
        assert(swept =~= before.push(c));
        assert(probes(swept) =~= probes(before).push((probe_of(c.0), c.1)));
        lemma_announced(e0, seq![EventView::TryingCandidate { base: c.0, mask: c.1 }]);
        lemma_announced(e1, seq![]);
        let told = s2.stepped(InputView::Swept(results.last())).1;
        lemma_announced(e2, told);
        assert(announced(e3) =~= announced(e1));
        assert(a1.drop_last() =~= a0);
        assert(addresses(a1) == addresses(a0).push((probe_of(c.0), c.1)));
        assert(a2.drop_last() =~= a1);
        assert(addresses(a2) == addresses(a1));
        assert(a3.drop_last() =~= a2);
        assert(addresses(a3) =~= addresses(a0).push((probe_of(c.0), c.1)));
    }
}

proof fn lemma_announced(events: Seq<EventView>, told: Seq<EventView>)
    requires
        told.len() <= 2,
    ensures
        told.len() == 0 ==> announced(events + told) == announced(events),
        told.len() == 1 ==> announced(events + told) == (match told[0] {
            EventView::TryingCandidate { base, mask } => announced(events).push((base, mask)),
            _ => announced(events),
        }),
        told.len() == 2 && !(told[0] is TryingCandidate) && !(told[1] is TryingCandidate) ==> announced(events + told)
            == announced(events),
{
    let all = events + told;
    if told.len() == 0 {
        assert(all =~= events);
    } else if told.len() == 1 {
        assert(all.drop_last() =~= events);
    } else {
        assert(all.drop_last() =~= events.push(told[0]));
        assert(events.push(told[0]).drop_last() =~= events);
        assert(events.push(told[0]).last() == told[0]);
        assert(all.last() == told[1]);
        reveal_with_fuel(announced, 3);
    }
}

/// A search that nothing disturbs and that no sweep ends has tried every
/// subnet, and announced each in its turn, when it says that it found nothing,
/// whether or not it is cancelled by then.
pub proof fn lemma_search_exhausts(
    candidates: Seq<(Seq<char>, Seq<char>)>,
    results: Seq<Seq<ScanView>>,
    cancelled: bool,
)
    requires
        results.len() == candidates.len(),
        picked(candidates, results) is None,
    ensures
        ({
            let (state, events, actions) = ran(
                candidates,
                undisturbed(results).push(InputView::Next { cancelled: cancelled }),
            );
            &&& state.phase is Done
            &&& events.len() > 0 && events.last() == EventView::NotFound
            &&& actions.len() > 0 && actions.last() == ActionView::Restore
            &&& announced(events) == candidates
            &&& addresses(actions) == probes(candidates)
        }),
{
    let inputs = undisturbed(results);
    let more = inputs.push(InputView::Next { cancelled: cancelled });
    if results.len() > 0 {
        assert(picked(candidates, results.drop_last()) is None);
    }
    lemma_search_picks(candidates, results);
    assert(more.drop_last() =~= inputs);
    assert(candidates.take(candidates.len() as int) =~= candidates);
    let (s0, e0, a0) = ran(candidates, inputs);
    let (s1, e1, a1) = ran(candidates, more);
    lemma_announced(e0, seq![EventView::NotFound]);
    assert(a1.drop_last() =~= a0);
}

/// The results are those of the subnets that are scanned until a device
/// answers: one answers on the last of them and on none before, or they are
/// those of all subnets and none answers.
pub open spec fn scanned_until_match(
    candidates: Seq<(Seq<char>, Seq<char>)>,
    results: Seq<Seq<ScanView>>,
) -> bool {
    match picked(candidates, results) {
        Some(_) => 0 < results.len() <= candidates.len() && picked(candidates, results.drop_last()) is None,
        None => results.len() == candidates.len(),
    }
}

/// A search that nothing disturbs does what `pick_match` does with the same
/// results. It ends with the subnet that `pick_match` gives, or with the word
/// that there is none; it announces just the subnets that `pick_match` scans,
/// in the same order; and the last address that it gives the interface is the
/// one on the subnet found.
pub proof fn lemma_search_as_pick_match(
    candidates: Seq<(Seq<char>, Seq<char>)>,
    results: Seq<Seq<ScanView>>,
    cancelled: bool,
)
    requires
        scanned_until_match(candidates, results),
    ensures
        ({
            let inputs = if picked(candidates, results) is Some {
                undisturbed(results)
            } else {
                undisturbed(results).push(InputView::Next { cancelled: cancelled })
            };
            let (state, events, actions) = ran(candidates, inputs);
            &&& state.phase is Done
            &&& announced(events) == candidates.take(results.len() as int)
            &&& addresses(actions) == probes(candidates.take(results.len() as int))
            &&& events.len() > 0
            &&& match picked(candidates, results) {
                Some(c) => {
                    &&& events.last() == (EventView::Found { base: c.0, mask: c.1 })
                    &&& addresses(actions).len() > 0 && addresses(actions).last() == (probe_of(c.0), c.1)
                },
                None => events.last() == EventView::NotFound,
            }
        }),
{
    if picked(candidates, results) is Some {
        lemma_search_picks(candidates, results);
    } else {
        lemma_search_exhausts(candidates, results, cancelled);
        assert(candidates.take(results.len() as int) =~= candidates);
    }
}

/// The address that the interface takes on a subnet ends in 250.
pub proof fn lemma_probe(base: Seq<char>)
    ensures
        probe_of(base) == base + ".250"@,
{
    reveal_with_fuel(text::decimal, 4);
    reveal_strlit(".");
    reveal_strlit(".250");
    assert(text::decimal(250) =~= seq!['2', '5', '0']);
    assert(probe_of(base) =~= base + ".250"@);
}

/// A device answered on a subnet where some host other than the interface
/// itself did.
pub proof fn lemma_match(base: Seq<char>, results: Seq<ScanView>)
    ensures
        has_match(probe_of(base), results) <==> exists|i: int|
            0 <= i < results.len() && (#[trigger] results[i]).ip != base + ".250"@,
{
    lemma_probe(base);
}

/// The command for a subnet that is tried gives the interface the address and
/// the mask, without a gateway, and changes nothing else.
pub proof fn lemma_probe_sets(
    adapter: netconfig::AdapterView,
    iface: Seq<char>,
    ip: Seq<char>,
    mask: Seq<char>,
    other: Seq<char>,
)
    ensures
        ({
            let args = netconfig::static_args(iface, ip, mask, seq![]);
            let after = netconfig::executed(adapter, iface, args);
            &&& after.fixed == Some((ip, mask, None::<Seq<char>>))
            &&& after.servers == adapter.servers
            &&& other != iface ==> netconfig::executed(adapter, other, args) == adapter
        }),
{
    netconfig::lemma_static_executed(adapter, iface, other, ip, mask, seq![]);
}

/// The subnets to try are those that were saved, in their order, and then the
/// six common ones.
pub proof fn lemma_candidates(saved: Seq<SubnetView>)
    ensures
        ({
            let all = candidate_list(saved);
            let n = saved.len() as int;
            &&& all.len() == n + 6
            &&& forall|i: int| 0 <= i < n ==> #[trigger] all[i] == (saved[i].base, saved[i].mask)
            &&& all[n] == ("192.168.1"@, "255.255.255.0"@)
            &&& all[n + 1] == ("192.168.0"@, "255.255.255.0"@)
            &&& all[n + 2] == ("192.168.10"@, "255.255.255.0"@)
            &&& all[n + 3] == ("10.0.0"@, "255.255.255.0"@)
            &&& all[n + 4] == ("10.0.1"@, "255.255.255.0"@)
            &&& all[n + 5] == ("172.16.0"@, "255.255.255.0"@)
        }),
{
    assert(slice_pairs(CANDIDATES@).len() == 6);
}

/// Each kind of input is awaited in its turn, and none once a search is over.
pub proof fn lemma_awaited(input: InputView)
    ensures
        fits(Phase::Ready, input) <==> input is Next,
        fits(Phase::Applying, input) <==> input is Applied,
        fits(Phase::Sweeping, input) <==> input is Swept,
        !fits(Phase::Done, input),
{
}

/// At every point of a search the subnets that it has announced are the first
/// of the list, in their order, and the interface has been given the address
/// on each of them and no other. The subnet that is tried is the last of those.
pub proof fn lemma_progress(candidates: Seq<(Seq<char>, Seq<char>)>, inputs: Seq<InputView>)
    ensures
        ({
            let (state, events, actions) = ran(candidates, inputs);
            let k = announced(events).len();
            &&& state.candidates == candidates
            &&& k <= candidates.len()
            &&& announced(events) == candidates.take(k as int)
            &&& addresses(actions) == Seq::new(k, |i: int| (candidates[i].0 + ".250"@, candidates[i].1))
            &&& match state.phase {
                Phase::Ready => state.next == k,
                Phase::Applying => state.next + 1 == k,
                Phase::Sweeping => state.next + 1 == k,
                Phase::Done => state.next == k || state.next + 1 == k,
            }
        }),
    decreases inputs.len(),
{
    let (state, events, actions) = ran(candidates, inputs);
    if inputs.len() == 0 {
        assert(candidates.take(0) =~= seq![]);
        assert(addresses(actions) =~= Seq::new(0, |i: int| (candidates[i].0 + ".250"@, candidates[i].1)));
    } else {
        lemma_progress(candidates, inputs.drop_last());
        let (s0, e0, a0) = ran(candidates, inputs.drop_last());
        let input = inputs.last();
        if fits(s0.phase, input) {
            let (s1, told, action) = s0.stepped(input);
            lemma_announced(e0, told);
            assert(actions.drop_last() =~= a0);
            if input is Next && s0.next < candidates.len() && !input->cancelled {
                let c = candidates[s0.next as int];
                let k = s0.next as int;
                lemma_probe(c.0);
                assert(candidates.take(k + 1) =~= candidates.take(k).push(c));
                assert(addresses(actions) =~= Seq::new(
                    (k + 1) as nat,
                    |i: int| (candidates[i].0 + ".250"@, candidates[i].1),
                ));
            }
        }
    }
}

/// What a search does with an input that it waits for, in whatever way it got
/// where it is. Where every subnet was tried it says that it found nothing, and
/// puts the interface back. A cancel before the next subnet, whichever is due,
/// ends it: it says so, and puts the interface back. Else it announces the
/// subnet that is next, and gives the interface the address and the mask. Once
/// the interface has its address the subnet is swept; where that failed it says
/// why, and puts the interface back. The number of hosts that answered is told,
/// and where one of them is not the interface itself the subnet was found, and
/// the interface stays as it is.
pub proof fn lemma_answer(candidates: Seq<(Seq<char>, Seq<char>)>, inputs: Seq<InputView>, input: InputView)
    requires
        fits(ran(candidates, inputs).0.phase, input),
    ensures
        ({
            let (before, events, actions) = ran(candidates, inputs);
            let (after, told, asked) = ran(candidates, inputs.push(input));
            let k = announced(events).len() as int;
            match input {
                InputView::Next { cancelled } => if k == candidates.len() {
                    &&& told == events.push(EventView::NotFound)
                    &&& asked == actions.push(ActionView::Restore)
                    &&& after.phase is Done
                } else if cancelled {
                    &&& told == events.push(EventView::Cancelled)
                    &&& asked == actions.push(ActionView::Restore)
                    &&& after.phase is Done
                } else {
                    &&& told == events.push(
                        EventView::TryingCandidate { base: candidates[k].0, mask: candidates[k].1 },
                    )
                    &&& asked == actions.push(
                        ActionView::Apply { ip: candidates[k].0 + ".250"@, mask: candidates[k].1 },
                    )
                    &&& after.phase is Applying
                },
                InputView::Applied(Ok(_)) => {
                    &&& k > 0
                    &&& told == events
                    &&& asked == actions.push(ActionView::Sweep { base: candidates[k - 1].0 })
                    &&& after.phase is Sweeping
                },
                InputView::Applied(Err(e)) => {
                    &&& k > 0
                    &&& told == events.push(
                        EventView::Error("Failed to probe "@ + candidates[k - 1].0 + ".0/24: "@ + e),
                    )
                    &&& asked == actions.push(ActionView::Restore)
                    &&& after.phase is Done
                },
                InputView::Swept(results) => {
                    let (base, mask) = candidates[k - 1];
                    let counted = events.push(
                        EventView::CandidateResult { base: base, host_count: results.len() },
                    );
                    &&& k > 0
                    &&& if exists|i: int| 0 <= i < results.len() && (#[trigger] results[i]).ip != base + ".250"@ {
                        &&& told == counted.push(EventView::Found { base: base, mask: mask })
                        &&& asked == actions.push(ActionView::Stop)
                        &&& after.phase is Done
                    } else {
                        &&& told == counted
                        &&& asked == actions.push(ActionView::Continue)
                        &&& after.phase is Ready
                    }
                },
            }
        }),
{
    lemma_progress(candidates, inputs);
    lemma_restored_unless_found(candidates, inputs);
    let (before, events, actions) = ran(candidates, inputs);
    let more = inputs.push(input);
    let (after, told, asked) = ran(candidates, more);
    assert(more.drop_last() =~= inputs);
    let (s, new, action) = before.stepped(input);
    let k = announced(events).len() as int;
    assert(told == events + new);
    if new.len() == 0 {
        assert(told =~= events);
    } else if new.len() == 1 {
        assert(told =~= events.push(new[0]));
    } else {
        assert(told =~= events.push(new[0]).push(new[1]));
    }
    match input {
        InputView::Next { .. } => {
            if k < candidates.len() {
                lemma_probe(candidates[k].0);
            }
        },
        InputView::Swept(results) => {
            lemma_match(candidates[k - 1].0, results);
        },
        _ => {},
    }
}

/// A search that is over does nothing more, whatever it is handed.
pub proof fn lemma_over(candidates: Seq<(Seq<char>, Seq<char>)>, inputs: Seq<InputView>, more: Seq<InputView>)
    requires
        ran(candidates, inputs).0.phase is Done,
    ensures
        ran(candidates, inputs + more) == ran(candidates, inputs),
    decreases more.len(),
{
    if more.len() == 0 {
        assert(inputs + more =~= inputs);
    } else {
        lemma_over(candidates, inputs, more.drop_last());
        assert((inputs + more).drop_last() =~= inputs + more.drop_last());
    }
}

/// A cancel wherever a subnet is still left, whichever it is, ends the search:
/// just that is told, the saved configuration is put back, and no address is
/// given to the interface after it, whatever the search is handed.
pub proof fn lemma_cancelled(candidates: Seq<(Seq<char>, Seq<char>)>, inputs: Seq<InputView>, more: Seq<InputView>)
    requires
        ran(candidates, inputs).0.phase is Ready,
        announced(ran(candidates, inputs).1).len() < candidates.len(),
    ensures
        ({
            let (before, events, actions) = ran(candidates, inputs);
            let (after, told, asked) = ran(
                candidates,
                inputs.push(InputView::Next { cancelled: true }) + more,
            );
            &&& after.phase is Done
            &&& told == events.push(EventView::Cancelled)
            &&& asked == actions.push(ActionView::Restore)
            &&& addresses(asked) == addresses(actions)
        }),
{
    let cancel = inputs.push(InputView::Next { cancelled: true });
    lemma_answer(candidates, inputs, InputView::Next { cancelled: true });
    lemma_over(candidates, cancel, more);
    let actions = ran(candidates, inputs).2;
    assert(actions.push(ActionView::Restore).drop_last() =~= actions);
}

/// A cancel in any state that waits to go on with a subnet still left ends the
/// search at once.
pub proof fn lemma_cancel_ends(s: DetectView)
    requires
        s.phase is Ready,
        s.next < s.candidates.len(),
    ensures
        ({
            let (after, told, action) = s.stepped(InputView::Next { cancelled: true });
            &&& told == seq![EventView::Cancelled]
            &&& action is Restore
            &&& forall|input: InputView| !#[trigger] fits(after.phase, input)
        }),
{
}

} // verus!
