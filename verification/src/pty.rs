//! Starting a program in a terminal: its command line, and the order in which
//! the parts of the terminal are made and, where one cannot be, unmade.
use crate::process;
use crate::text;
use vstd::prelude::*;

verus! {

/// An argument as it stands in a command line: in quotation marks where it is
/// empty or holds a space.
pub open spec fn quoted(arg: Seq<char>) -> Seq<char> {
    if arg.len() == 0 || arg.contains(' ') {
        seq!['"'] + arg + seq!['"']
    } else {
        arg
    }
}

/// Writes an argument as it stands in a command line.
pub fn quote_arg(arg: &str) -> (r: String)
    ensures
        r@ == quoted(arg@),
{
    let s = text::chars_of(arg);
    if s.len() == 0 || text::position(s.as_slice(), ' ') < s.len() {
        let mut out = String::new();
        out.push('"');
        out.append(arg);
        out.push('"');
        assert(out@ =~= quoted(arg@));
        out
    } else {
        arg.to_owned()
    }
}

/// The UTF-16 code units of a character.
pub open spec fn utf16_units(c: char) -> Seq<u16> {
    let v = c as u32 as int;
    if v < 0x1_0000 {
        seq![v as u16]
    } else {
        seq![(0xd800 + (v - 0x1_0000) / 0x400) as u16, (0xdc00 + (v - 0x1_0000) % 0x400) as u16]
    }
}

/// A text in UTF-16.
pub open spec fn utf16(s: Seq<char>) -> Seq<u16>
    decreases s.len(),
{
    if s.len() == 0 {
        seq![]
    } else {
        utf16(s.drop_last()) + utf16_units(s.last())
    }
}

/// A program and its arguments with spaces between them.
pub open spec fn command_line(program: Seq<char>, args: Seq<Seq<char>>) -> Seq<char>
    decreases args.len(),
{
    if args.len() == 0 {
        quoted(program)
    } else {
        command_line(program, args.drop_last()).push(' ') + quoted(args.last())
    }
}

fn push_utf16(out: &mut Vec<u16>, c: char)
    ensures
        final(out)@ == old(out)@ + utf16_units(c),
{
    let v: u32 = c as u32;
    if v < 0x1_0000 {
        out.push(v as u16);
    } else {
        out.push((0xd800 + (v - 0x1_0000) / 0x400) as u16);
        out.push((0xdc00 + (v - 0x1_0000) % 0x400) as u16);
    }
    assert(out@ =~= old(out)@ + utf16_units(c));
}

/// Builds the command line that starts a program: in UTF-16, with a zero at
/// the end.
pub fn build_command_line(program: &str, args: &[&str]) -> (r: Vec<u16>)
    ensures
        r@ == utf16(command_line(program@, text::str_views(args@))).push(0),
{
    let ghost v = text::str_views(args@);
    let mut line = quote_arg(program);
    let mut i: usize = 0;
    assert(v.take(0) =~= seq![]);
    while i < args.len()
        invariant
            v == text::str_views(args@),
            i <= args@.len(),
            line@ == command_line(program@, v.take(i as int)),
        decreases args@.len() - i,
    {
        assert(v.take(i + 1).drop_last() =~= v.take(i as int));
        line.push(' ');
        let q = quote_arg(args[i]);
        line.append(q.as_str());
        i += 1;
    }
    assert(v.take(i as int) =~= v);
    let chars = text::chars_of(line.as_str());
    let mut out: Vec<u16> = Vec::new();
    let mut k: usize = 0;
    assert(utf16(chars@.take(0)) =~= seq![]);
    while k < chars.len()
        invariant
            k <= chars@.len(),
            out@ == utf16(chars@.take(k as int)),
        decreases chars@.len() - k,
    {
        assert(chars@.take(k + 1).drop_last() =~= chars@.take(k as int));
        push_utf16(&mut out, chars[k]);
        k += 1;
    }
    assert(chars@.take(k as int) =~= chars@);
    out.push(0);
    out
}

// ---------------------------------------------------------------------------
// Starting a program
// ---------------------------------------------------------------------------

/// What is to be done next to start a program in a terminal.
#[derive(Debug, Clone, Copy, PartialEq, Eq, Structural)]
pub enum SpawnStep {
    /// Make the pipe that the program reads from.
    InputPipe,
    /// Make the pipe that the program writes to.
    OutputPipe,
    /// Make the console, and give up the ends of the pipes that it uses.
    Console,
    /// Make the list of attributes for the process.
    Attributes,
    /// Enter the console in the list.
    AttachConsole,
    /// Create the process.
    Process,
    /// Delete the list.
    DeleteAttributes,
    /// Close the handle of the first thread of the process.
    CloseThread,
    /// Start to read what the program writes.
    Reader,
    /// Close the console.
    CloseConsole,
    /// Nothing: the program runs.
    Running,
    /// Nothing: it could not be started.
    Failed,
}

/// How far the start of a program has come.
pub struct SpawnView {
    pub step: SpawnStep,
    /// There is a console.
    pub console: bool,
    /// There is a list of attributes.
    pub attributes: bool,
    /// There is a process.
    pub process: bool,
    /// What went wrong.
    pub error: Option<Seq<char>>,
}

impl SpawnView {
    /// Nothing has been done yet.
    pub open spec fn begun() -> SpawnView {
        SpawnView {
            step: SpawnStep::InputPipe,
            console: false,
            attributes: false,
            process: false,
            error: None,
        }
    }

    /// What there is at each step: the list of attributes only from when it is
    /// made to when it is deleted, the console from when it is made on unless
    /// something went wrong, and at the end of a failed start nothing.
    pub open spec fn ok(self) -> bool {
        match self.step {
            SpawnStep::InputPipe | SpawnStep::OutputPipe | SpawnStep::Console => !self.console && !self.attributes
                && !self.process && self.error is None,
            SpawnStep::Attributes => self.console && !self.attributes && !self.process && self.error is None,
            SpawnStep::AttachConsole | SpawnStep::Process => self.console && self.attributes && !self.process
                && self.error is None,
            SpawnStep::DeleteAttributes => self.console && self.attributes && (self.process <==> self.error is None),
            SpawnStep::CloseThread | SpawnStep::Reader | SpawnStep::Running => self.console && !self.attributes
                && self.process && self.error is None,
            SpawnStep::CloseConsole => self.console && !self.attributes && !self.process && self.error is Some,
            SpawnStep::Failed => !self.console && !self.attributes && !self.process && self.error is Some,
        }
    }

    /// The same, with another step to do.
    pub open spec fn to(self, step: SpawnStep) -> SpawnView {
        SpawnView { step: step, ..self }
    }

    /// The same, with what went wrong and another step to do.
    pub open spec fn wrong(self, error: Seq<char>, step: SpawnStep) -> SpawnView {
        SpawnView { step: step, error: Some(error), ..self }
    }

    /// After the present step: `result` tells how it went. What unmakes
    /// something cannot go wrong.
    pub open spec fn done(self, result: Result<(), Seq<char>>) -> SpawnView {
        match (self.step, result) {
            (SpawnStep::InputPipe, Ok(_)) => self.to(SpawnStep::OutputPipe),
            (SpawnStep::InputPipe, Err(e)) => self.wrong(e, SpawnStep::Failed),
            (SpawnStep::OutputPipe, Ok(_)) => self.to(SpawnStep::Console),
            (SpawnStep::OutputPipe, Err(e)) => self.wrong(e, SpawnStep::Failed),
            (SpawnStep::Console, Ok(_)) => SpawnView { console: true, ..self.to(SpawnStep::Attributes) },
            (SpawnStep::Console, Err(e)) => self.wrong(e, SpawnStep::Failed),
            (SpawnStep::Attributes, Ok(_)) => SpawnView { attributes: true, ..self.to(SpawnStep::AttachConsole) },
            (SpawnStep::Attributes, Err(e)) => self.wrong(e, SpawnStep::CloseConsole),
            (SpawnStep::AttachConsole, Ok(_)) => self.to(SpawnStep::Process),
            (SpawnStep::AttachConsole, Err(e)) => self.wrong(e, SpawnStep::DeleteAttributes),
            (SpawnStep::Process, Ok(_)) => SpawnView { process: true, ..self.to(SpawnStep::DeleteAttributes) },
            (SpawnStep::Process, Err(e)) => self.wrong(e, SpawnStep::DeleteAttributes),
            (SpawnStep::DeleteAttributes, _) => SpawnView {
                attributes: false,
                ..self.to(
                    if self.error is Some {
                        SpawnStep::CloseConsole
                    } else {
                        SpawnStep::CloseThread
                    },
                )
            },
            (SpawnStep::CloseThread, _) => self.to(SpawnStep::Reader),
            (SpawnStep::Reader, _) => self.to(SpawnStep::Running),
            (SpawnStep::CloseConsole, _) => SpawnView { console: false, ..self.to(SpawnStep::Failed) },
            (SpawnStep::Running, _) => self,
            (SpawnStep::Failed, _) => self,
        }
    }
}

/// The start of a program in a terminal.
pub struct Spawn {
    step: SpawnStep,
    console: Ghost<bool>,
    attributes: Ghost<bool>,
    process: Ghost<bool>,
    error: Option<String>,
}

impl View for Spawn {
    type V = SpawnView;

    closed spec fn view(&self) -> SpawnView {
        SpawnView {
            step: self.step,
            console: self.console@,
            attributes: self.attributes@,
            process: self.process@,
            error: text::opt_view(self.error),
        }
    }
}

impl Spawn {
    /// Begins to start a program.
    pub fn new() -> (r: Spawn)
        ensures
            r@ == SpawnView::begun(),
            r@.ok(),
    {
        Spawn {
            step: SpawnStep::InputPipe,
            console: Ghost(false),
            attributes: Ghost(false),
            process: Ghost(false),
            error: None,
        }
    }

    /// What is to be done next.
    pub fn step(&self) -> (r: SpawnStep)
        ensures
            r == self@.step,
    {
        self.step
    }

    /// What went wrong, if something did.
    pub fn error(&self) -> (r: Option<String>)
        ensures
            text::opt_view(r) == self@.error,
    {
        match &self.error {
            Some(e) => Some(e.clone()),
            None => None,
        }
    }

    /// Takes note of how the present step went.
    pub fn report(&mut self, result: Result<(), String>)
        requires
            old(self)@.ok(),
        ensures
            final(self)@.ok(),
            final(self)@ == old(self)@.done(process::result_view(result)),
    {
        let failed = self.error.is_some();
        match (self.step, result) {
            (SpawnStep::InputPipe, Ok(_)) => {
                self.step = SpawnStep::OutputPipe;
            },
            (SpawnStep::OutputPipe, Ok(_)) => {
                self.step = SpawnStep::Console;
            },
            (SpawnStep::Console, Ok(_)) => {
                self.step = SpawnStep::Attributes;
                self.console = Ghost(true);
            },
            (SpawnStep::Attributes, Ok(_)) => {
                self.step = SpawnStep::AttachConsole;
                self.attributes = Ghost(true);
            },
            (SpawnStep::AttachConsole, Ok(_)) => {
                self.step = SpawnStep::Process;
            },
            (SpawnStep::Process, Ok(_)) => {
                self.step = SpawnStep::DeleteAttributes;
                self.process = Ghost(true);
            },
            (SpawnStep::InputPipe, Err(e)) | (SpawnStep::OutputPipe, Err(e)) | (SpawnStep::Console, Err(e)) => {
                self.step = SpawnStep::Failed;
                self.error = Some(e);
            },
            (SpawnStep::Attributes, Err(e)) => {
                self.step = SpawnStep::CloseConsole;
                self.error = Some(e);
            },
            (SpawnStep::AttachConsole, Err(e)) | (SpawnStep::Process, Err(e)) => {
                self.step = SpawnStep::DeleteAttributes;
                self.error = Some(e);
            },
            (SpawnStep::DeleteAttributes, _) => {
                self.step = if failed {
                    SpawnStep::CloseConsole
                } else {
                    SpawnStep::CloseThread
                };
                self.attributes = Ghost(false);
            },
            (SpawnStep::CloseThread, _) => {
                self.step = SpawnStep::Reader;
            },
            (SpawnStep::Reader, _) => {
                self.step = SpawnStep::Running;
            },
            (SpawnStep::CloseConsole, _) => {
                self.step = SpawnStep::Failed;
                self.console = Ghost(false);
            },
            (SpawnStep::Running, _) | (SpawnStep::Failed, _) => {},
        }
    }
}

/// What is said where the console could not be made, for this result code.
pub fn console_failed(code: u32) -> (r: String)
    ensures
        r@ == "CreatePseudoConsole failed (hresult 0x"@ + text::hex_byte((code / 0x100_0000) as u8) + text::hex_byte(
            (code / 0x1_0000 % 0x100) as u8,
        ) + text::hex_byte((code / 0x100 % 0x100) as u8) + text::hex_byte((code % 0x100) as u8) + ")"@,
{
    let mut out = "CreatePseudoConsole failed (hresult 0x".to_owned();
    text::push_hex_byte(&mut out, (code / 0x100_0000) as u8);
    text::push_hex_byte(&mut out, (code / 0x1_0000 % 0x100) as u8);
    text::push_hex_byte(&mut out, (code / 0x100 % 0x100) as u8);
    text::push_hex_byte(&mut out, (code % 0x100) as u8);
    out.append(")");
    out
}

// ---------------------------------------------------------------------------
// Laws
// ---------------------------------------------------------------------------

/// The start of a program after the results of a number of steps.
pub open spec fn spawned(results: Seq<Result<(), Seq<char>>>) -> SpawnView
    decreases results.len(),
{
    if results.len() == 0 {
        SpawnView::begun()
    } else {
        spawned(results.drop_last()).done(results.last())
    }
}

/// However the steps go, a start that has failed leaves neither console nor
/// list of attributes nor process behind and knows what went wrong, and one
/// that has succeeded leaves the console and the process and no list.
pub proof fn lemma_spawned(results: Seq<Result<(), Seq<char>>>)
    ensures
        spawned(results).ok(),
        spawned(results).step is Failed ==> !spawned(results).console && !spawned(results).attributes && !spawned(
            results,
        ).process && spawned(results).error is Some,
        spawned(results).step is Running ==> spawned(results).console && !spawned(results).attributes && spawned(
            results,
        ).process && spawned(results).error is None,
    decreases results.len(),
{
    if results.len() > 0 {
        lemma_spawned(results.drop_last());
    }
}

/// How many steps there are at most before the end.
pub open spec fn steps_left(step: SpawnStep) -> nat {
    match step {
        SpawnStep::InputPipe => 9,
        SpawnStep::OutputPipe => 8,
        SpawnStep::Console => 7,
        SpawnStep::Attributes => 6,
        SpawnStep::AttachConsole => 5,
        SpawnStep::Process => 4,
        SpawnStep::DeleteAttributes => 3,
        SpawnStep::CloseThread => 2,
        SpawnStep::Reader | SpawnStep::CloseConsole => 1,
        SpawnStep::Running | SpawnStep::Failed => 0,
    }
}

/// Every start comes to its end within nine steps.
pub proof fn lemma_spawn_ends(results: Seq<Result<(), Seq<char>>>)
    ensures
        results.len() + steps_left(spawned(results).step) <= 9 || steps_left(spawned(results).step) == 0,
        results.len() >= 9 ==> spawned(results).step is Running || spawned(results).step is Failed,
    decreases results.len(),
{
    if results.len() > 0 {
        lemma_spawn_ends(results.drop_last());
    }
}

/// An argument is quoted exactly where it is empty or holds a space, and its own
/// characters stay as they are. A command line is the program and then its
/// arguments, in their order, with one space between each two.
pub proof fn lemma_command_line(program: Seq<char>, args: Seq<Seq<char>>, arg: Seq<char>)
    ensures
        arg.len() > 0 && !arg.contains(' ') ==> quoted(arg) == arg,
        arg.len() == 0 || arg.contains(' ') ==> quoted(arg) == seq!['"'] + arg + seq!['"'],
        command_line(program, seq![]) == quoted(program),
        command_line(program, args.push(arg)) == command_line(program, args) + seq![' '] + quoted(arg),
{
    assert(args.push(arg).drop_last() =~= args);
    assert(command_line(program, args.push(arg)) =~= command_line(program, args) + seq![' '] + quoted(arg));
}

/// One character more adds its code units: its number where that fits, else a
/// pair of surrogates that stand for it.
pub proof fn lemma_utf16(s: Seq<char>, c: char)
    ensures
        ({
            let units = utf16_units(c);
            let v = c as u32;
            &&& utf16(s.push(c)) == utf16(s) + units
            &&& utf16(seq![]).len() == 0
            &&& v < 0x1_0000 ==> units.len() == 1 && units[0] == v
            &&& v >= 0x1_0000 ==> {
                &&& units.len() == 2
                &&& 0xd800 <= units[0] <= 0xdbff
                &&& 0xdc00 <= units[1] <= 0xdfff
                &&& v == 0x1_0000 + (units[0] - 0xd800) * 0x400 + (units[1] - 0xdc00)
            }
        }),
{
    assert(s.push(c).drop_last() =~= s);
    assert(c as u32 <= 0x10_ffff);
}

/// The steps of a start that nothing goes wrong with, in their order.
pub open spec fn good_steps() -> Seq<SpawnStep> {
    seq![
        SpawnStep::InputPipe,
        SpawnStep::OutputPipe,
        SpawnStep::Console,
        SpawnStep::Attributes,
        SpawnStep::AttachConsole,
        SpawnStep::Process,
        SpawnStep::DeleteAttributes,
        SpawnStep::CloseThread,
        SpawnStep::Reader,
        SpawnStep::Running,
    ]
}

/// As long as nothing goes wrong the steps are done in their order, up to the
/// program that runs. The first thing that goes wrong is what is told, and the
/// start then fails, whatever comes after it.
pub proof fn lemma_spawn_order(results: Seq<Result<(), Seq<char>>>, n: int, e: Seq<char>)
    requires
        0 <= n <= results.len(),
        forall|i: int| 0 <= i < n ==> #[trigger] results[i] is Ok,
    ensures
        n == results.len() ==> {
            &&& spawned(results).error is None
            &&& n <= 9 ==> spawned(results).step == good_steps()[n]
            &&& n > 9 ==> spawned(results).step is Running
        },
        n < results.len() && n < 6 && results[n] == Err::<(), Seq<char>>(e) ==> {
            &&& spawned(results).error == Some(e)
            &&& spawned(results).step is DeleteAttributes || spawned(results).step is CloseConsole || spawned(
                results,
            ).step is Failed
        },
    decreases results.len(),
{
    if results.len() > 0 {
        let init = results.drop_last();
        lemma_spawned(init);
        if n == results.len() {
            assert(results[n - 1] is Ok);
            assert forall|i: int| 0 <= i < n - 1 implies #[trigger] init[i] is Ok by {
                assert(init[i] == results[i]);
            }
            lemma_spawn_order(init, n - 1, e);
        } else {
            assert forall|i: int| 0 <= i < n implies #[trigger] init[i] is Ok by {
                assert(init[i] == results[i]);
            }
            lemma_spawn_order(init, n, e);
            if n < init.len() {
                assert(init[n] == results[n]);
            }
        }
    }
}

} // verus!
