//! The commands that a viewer can send.

use vstd::prelude::*;
use vstd::string::*;

use crate::control::SimControl;
use crate::network::{same_nodes, Network};
use crate::persistence::since;
use crate::scenarios::targets::resolves;
use crate::scenarios::{AttackScenario, ScenarioTarget, ScenarioView};
use crate::text::is_text;
use crate::visualization::{build_visual_state, shown, VisualState};

verus! {

/// A command.
#[derive(Debug)]
pub enum Command {
    Run,
    Stop,
    Restart,
    Scenario(ScenarioRequest),
    /// Anything else; it is passed over.
    Other,
}

/// What a viewer wants done to the network.
#[derive(Debug)]
pub struct ScenarioRequest {
    pub name: String,
    pub target: ScenarioTarget,
    pub duration: Duration,
}

/// How long a scenario is to last.
#[derive(Debug)]
pub enum Duration {
    /// As long as it usually does.
    Usual,
    Ticks(u64),
    /// What was sent is no number.
    Unreadable(String),
}

/// Why a scenario is not set to work.
#[derive(Debug)]
pub enum Refusal {
    /// The scenario would last no tick, or longer than the simulation.
    OutOfRange { ticks: u64, remaining: u64 },
    /// What was sent for the duration is no number.
    Unreadable(String),
    /// There is no scenario of this name.
    Unknown(String),
}

/// The pieces of a text between the separators.
pub open spec fn pieces(s: Seq<char>, separator: char) -> Seq<Seq<char>>
    decreases s.len(),
{
    if s.len() == 0 {
        seq![seq![]]
    } else {
        let before = pieces(s.drop_last(), separator);
        if s.last() == separator {
            before.push(seq![])
        } else {
            before.drop_last().push(before.last().push(s.last()))
        }
    }
}

/// The value of a decimal digit.
pub open spec fn digit(c: char) -> Option<nat> {
    if '0' <= c && c <= '9' { Some((c as u32 - '0' as u32) as nat) } else { None }
}

/// The value of a row of decimal digits; zero for an empty one.
pub open spec fn digits(s: Seq<char>) -> Option<nat>
    decreases s.len(),
{
    if s.len() == 0 {
        Some(0)
    } else {
        match (digits(s.drop_last()), digit(s.last())) {
            (Some(n), Some(d)) => Some(10 * n + d),
            _ => None,
        }
    }
}

/// The number that a text stands for: decimal digits, with a plus sign before them or not, and
/// `most` at most.
pub open spec fn number(s: Seq<char>, most: nat) -> Option<nat> {
    let row = if s.len() > 0 && s[0] == '+' { s.skip(1) } else { s };
    match digits(row) {
        Some(n) => if row.len() > 0 && n <= most { Some(n) } else { None },
        None => None,
    }
}

/// The target that a viewer names.
pub open spec fn named_target(kind: Seq<char>, id: u32) -> ScenarioTarget {
    if kind == "ById"@ {
        ScenarioTarget::ById(id)
    } else if kind == "Random"@ {
        ScenarioTarget::Random { count: 1 }
    } else {
        ScenarioTarget::All
    }
}

/// The id in the fourth piece; zero where there is none or it is no number.
pub open spec fn named_id(parts: Seq<Seq<char>>) -> u32 {
    if parts.len() > 3 {
        match number(parts[3], u32::MAX as nat) {
            Some(n) => n as u32,
            None => 0,
        }
    } else {
        0
    }
}

/// The duration in the fifth piece.
pub open spec fn is_named_duration(parts: Seq<Seq<char>>, duration: Duration) -> bool {
    if parts.len() <= 4 {
        duration is Usual
    } else {
        match number(parts[4], u64::MAX as nat) {
            Some(n) => duration == Duration::Ticks(n as u64),
            None => match duration {
                Duration::Unreadable(raw) => raw@ == parts[4],
                _ => false,
            },
        }
    }
}

/// The command is the one that the text stands for.
pub open spec fn stands_for(text: Seq<char>, command: Command) -> bool {
    let parts = pieces(text, ':');
    if text == "run"@ {
        command is Run
    } else if text == "stop"@ {
        command is Stop
    } else if text == "restart"@ {
        command is Restart
    } else if parts.len() >= 3 && parts[0] == "scenario"@ {
        match command {
            Command::Scenario(request) => {
                &&& request.name@ == parts[1]
                &&& request.target == named_target(parts[2], named_id(parts))
                &&& is_named_duration(parts, request.duration)
            },
            _ => false,
        }
    } else {
        command is Other
    }
}

/// How long a scenario lasts where nothing else is asked for.
pub open spec fn usual_duration(name: Seq<char>) -> u64 {
    if name == "ddos"@ || name == "underscale"@ || name == "ai_crash"@ || name == "node_infection"@ {
        20
    } else {
        10
    }
}

/// Cuts a text at the separators.
fn cut<'a>(s: &'a str, separator: char) -> (parts: Vec<&'a str>)
    ensures
        parts@.map_values(|p: &str| p@) == pieces(s@, separator),
{
    let len: usize = s.unicode_len();
    let mut parts: Vec<&'a str> = Vec::new();
    let mut start: usize = 0;
    let mut i: usize = 0;
    let ghost f = |p: &str| p@;
    proof {
        assert(s@.subrange(0, 0) =~= seq![]);
        assert(s@.take(0) =~= seq![]);
        assert(parts@.map_values(f).push(s@.subrange(0, 0)) =~= pieces(s@.take(0), separator));
    }
    while i < len
        invariant
            start <= i <= len,
            len == s@.len(),
            f == (|p: &str| p@),
            parts@.map_values(f).push(s@.subrange(start as int, i as int)) == pieces(s@.take(i as int), separator),
        decreases len - i,
    {
        let c: char = s.get_char(i);
        let ghost done = parts@.map_values(f);
        let ghost open = s@.subrange(start as int, i as int);
        proof {
            assert(s@.take(i + 1).drop_last() =~= s@.take(i as int));
            assert(s@.take(i + 1).last() == c);
            assert(done.push(open).drop_last() =~= done);
            assert(done.push(open).last() == open);
        }
        if c == separator {
            parts.push(s.substring_char(start, i));
            start = i + 1;
            proof {
                assert(parts@.map_values(f) =~= done.push(open));
                assert(s@.subrange(start as int, i + 1) =~= seq![]);
            }
        } else {
            assert(s@.subrange(start as int, i + 1) =~= open.push(c));
        }
        i = i + 1;
    }
    assert(s@.take(len as int) =~= s@);
    let ghost done = parts@.map_values(f);
    parts.push(s.substring_char(start, len));
    assert(parts@.map_values(f) =~= done.push(s@.subrange(start as int, len as int)));
    parts
}

proof fn lemma_digits_prefix(s: Seq<char>, i: int)
    requires
        0 <= i <= s.len(),
        digits(s.take(i)) is None,
    ensures
        digits(s) is None,
    decreases s.len() - i,
{
    if i < s.len() {
        assert(s.take(i + 1).drop_last() =~= s.take(i));
        lemma_digits_prefix(s, i + 1);
    } else {
        assert(s.take(i) =~= s);
    }
}

proof fn lemma_digits_grow(s: Seq<char>, i: int)
    requires
        0 <= i <= s.len(),
        digits(s.take(i)) is Some,
        digits(s) is Some,
    ensures
        digits(s)->0 >= digits(s.take(i))->0,
    decreases s.len() - i,
{
    if i < s.len() {
        assert(s.take(i + 1).drop_last() =~= s.take(i));
        if digits(s.take(i + 1)) is None {
            lemma_digits_prefix(s, i + 1);
        }
        lemma_digits_grow(s, i + 1);
    } else {
        assert(s.take(i) =~= s);
    }
}

/// Reads a number.
fn read_number(s: &str, most: u64) -> (n: Option<u64>)
    ensures
        match number(s@, most as nat) {
            Some(v) => n == Some(v as u64),
            None => n is None,
        },
{
    let len: usize = s.unicode_len();
    let first: usize = if len > 0 && s.get_char(0) == '+' { 1 } else { 0 };
    let ghost row = s@.skip(first as int);
    assert(first == 0 ==> row =~= s@);
    if first == len {
        return None;
    }
    let mut value: u128 = 0;
    let mut i: usize = first;
    assert(row.take(0) =~= seq![]);
    while i < len
        invariant
            first <= i <= len,
            len == s@.len(),
            row == s@.skip(first as int),
            first <= 1,
            first == 1 <==> s@.len() > 0 && s@[0] == '+',
            first == 0 ==> row == s@,
            digits(row.take(i - first)) == Some(value as nat),
            value <= most,
        decreases len - i,
    {
        let c: char = s.get_char(i);
        proof {
            assert(row.take(i - first + 1).drop_last() =~= row.take(i - first));
            assert(row.take(i - first + 1).last() == c);
        }
        if c < '0' || c > '9' {
            proof {
                lemma_digits_prefix(row, i - first + 1);
            }
            return None;
        }
        value = value * 10 + (c as u32 - '0' as u32) as u128;
        if value > most as u128 {
            proof {
                if digits(row) is Some {
                    lemma_digits_grow(row, i - first + 1);
                }
            }
            return None;
        }
        i = i + 1;
    }
    assert(row.take(i - first) =~= row);
    Some(value as u64)
}

/// Reads a command.
pub fn read_command(text: &str) -> (command: Command)
    ensures
        stands_for(text@, command),
{
    let whole = text.to_string();
    if is_text(&whole, "run") {
        return Command::Run;
    }
    if is_text(&whole, "stop") {
        return Command::Stop;
    }
    if is_text(&whole, "restart") {
        return Command::Restart;
    }
    let parts = cut(text, ':');
    let ghost all = pieces(text@, ':');
    assert(parts@.len() == all.len());
    assert forall|i: int| 0 <= i < parts@.len() implies (#[trigger] parts@[i])@ == all[i] by {
        assert(parts@.map_values(|p: &str| p@)[i] == parts@[i]@);
    }
    if parts.len() < 3 || !is_text(&parts[0].to_string(), "scenario") {
        return Command::Other;
    }
    let id: u32 = if parts.len() > 3 {
        match read_number(parts[3], 0xffff_ffff) {
            Some(n) => n as u32,
            None => 0,
        }
    } else {
        0
    };
    assert(id == named_id(all));
    let kind = parts[2].to_string();
    let target = if is_text(&kind, "ById") {
        ScenarioTarget::ById(id)
    } else if is_text(&kind, "Random") {
        ScenarioTarget::Random { count: 1 }
    } else {
        ScenarioTarget::All
    };
    let duration = if parts.len() > 4 {
        match read_number(parts[4], u64::MAX) {
            Some(n) => Duration::Ticks(n),
            None => Duration::Unreadable(parts[4].to_string()),
        }
    } else {
        Duration::Usual
    };
    Command::Scenario(ScenarioRequest { name: parts[1].to_string(), target, duration })
}

/// The duration is refused.
pub open spec fn refused_duration(duration: Duration, remaining: u64) -> bool {
    match duration {
        Duration::Usual => false,
        Duration::Ticks(ticks) => ticks == 0 || ticks > remaining,
        Duration::Unreadable(_) => true,
    }
}

/// The duration that a request asks for.
pub open spec fn asked_duration(name: Seq<char>, duration: Duration) -> u64 {
    match duration {
        Duration::Ticks(ticks) => ticks,
        _ => usual_duration(name),
    }
}

/// The scenario of this name.
pub open spec fn scenario_named(name: Seq<char>, target: ScenarioTarget, ticks: u64) -> Option<ScenarioView> {
    if name == "ddos"@ {
        Some(ScenarioView::ddos(target, ticks))
    } else if name == "underscale"@ {
        Some(ScenarioView::underscale(target, ticks))
    } else if name == "brute_force"@ {
        Some(ScenarioView::brute_force(target, ticks))
    } else if name == "ai_crash"@ {
        Some(ScenarioView::ai_crash(target, ticks))
    } else if name == "node_infection"@ {
        Some(ScenarioView::node_infection(target, ticks))
    } else if name == "network_partition"@ {
        Some(ScenarioView::network_partition(target, ticks))
    } else {
        None
    }
}

/// The scenario that is asked for, in a simulation with so many ticks to go; nothing where it is
/// refused.
pub open spec fn granted(request: ScenarioRequest, remaining: u64) -> Option<ScenarioView> {
    if refused_duration(request.duration, remaining) {
        None
    } else {
        scenario_named(request.name@, request.target, asked_duration(request.name@, request.duration))
    }
}

/// Why the scenario that is asked for is refused: its duration comes before its name.
pub open spec fn refusal_of(request: ScenarioRequest, remaining: u64) -> Refusal {
    match request.duration {
        Duration::Unreadable(raw) => Refusal::Unreadable(raw),
        Duration::Ticks(ticks) => if ticks == 0 || ticks > remaining {
            Refusal::OutOfRange { ticks, remaining }
        } else {
            Refusal::Unknown(request.name)
        },
        Duration::Usual => Refusal::Unknown(request.name),
    }
}

impl ScenarioRequest {
    /// The scenario that is asked for, in a simulation with so many ticks to go, or why there is none.
    pub fn scenario(self, remaining: u64) -> (chosen: Result<AttackScenario, Refusal>)
        ensures
            chosen is Ok <==> granted(self, remaining) is Some,
            chosen matches Ok(scenario) ==> Some(scenario@) == granted(self, remaining),
            chosen matches Err(refusal) ==> refusal == refusal_of(self, remaining),
    {
        let name = self.name;
        let target = self.target;
        let ticks: u64 = match self.duration {
            Duration::Usual => {
                if is_text(&name, "ddos") || is_text(&name, "underscale") || is_text(&name, "ai_crash") || is_text(
                    &name,
                    "node_infection",
                ) {
                    20
                } else {
                    10
                }
            },
            Duration::Ticks(ticks) => {
                if ticks == 0 || ticks > remaining {
                    return Err(Refusal::OutOfRange { ticks, remaining });
                }
                ticks
            },
            Duration::Unreadable(raw) => {
                return Err(Refusal::Unreadable(raw));
            },
        };
        if is_text(&name, "ddos") {
            Ok(AttackScenario::ddos(target, ticks))
        } else if is_text(&name, "underscale") {
            Ok(AttackScenario::underscale(target, ticks))
        } else if is_text(&name, "brute_force") {
            Ok(AttackScenario::brute_force(target, ticks))
        } else if is_text(&name, "ai_crash") {
            Ok(AttackScenario::ai_crash(target, ticks))
        } else if is_text(&name, "node_infection") {
            Ok(AttackScenario::node_infection(target, ticks))
        } else if is_text(&name, "network_partition") {
            Ok(AttackScenario::network_partition(target, ticks))
        } else {
            Err(Refusal::Unknown(name))
        }
    }
}

/// A viewer.
#[derive(Debug)]
pub struct Viewer {
    /// The last tick that it was shown.
    pub last_sent_tick: u64,
}

impl Viewer {
    /// A viewer that has seen nothing.
    pub fn new() -> (v: Self)
        ensures
            v.last_sent_tick == 0,
    {
        Viewer { last_sent_tick: 0 }
    }

    /// Follows a command as far as the switches go, and hands on what is asked of the network. After
    /// a restart the viewer is shown everything again.
    pub fn heed(&mut self, command: Command, control: &mut SimControl) -> (request: Option<ScenarioRequest>)
        ensures
            match command {
                Command::Run => final(control).running && final(control).restart_requested
                    == old(control).restart_requested,
                Command::Stop => !final(control).running && final(control).restart_requested
                    == old(control).restart_requested,
                Command::Restart => final(control).running && final(control).restart_requested,
                _ => *final(control) == *old(control),
            },
            final(self).last_sent_tick == if command is Restart { 0 } else { old(self).last_sent_tick },
            request == match command {
                Command::Scenario(r) => Some(r),
                _ => None,
            },
    {
        match command {
            Command::Run => {
                control.run();
                None
            },
            Command::Stop => {
                control.stop();
                None
            },
            Command::Restart => {
                control.restart();
                self.last_sent_tick = 0;
                None
            },
            Command::Scenario(request) => Some(request),
            Command::Other => None,
        }
    }

    /// Shows the viewer what is new.
    pub fn show(&mut self, network: &Network) -> (state: VisualState)
        requires
            network@.wired(),
        ensures
            state@ == shown(network@, old(self).last_sent_tick),
            final(self).last_sent_tick == network.tick,
    {
        let state = build_visual_state(network, self.last_sent_tick);
        self.last_sent_tick = state.tick;
        state
    }
}

impl Network {
    /// How many ticks the simulation has to go.
    pub fn remaining_ticks(&self) -> (n: u64)
        ensures
            n == since(self.max_ticks, self.tick),
    {
        self.max_ticks.saturating_sub(self.tick)
    }

    /// Sets the scenario to work that is asked for, or says why not.
    pub fn obey(&mut self, request: ScenarioRequest) -> (done: Result<(), Refusal>)
        requires
            old(self)@.wired(),
        ensures
            ({
                let asked = granted(request, since(old(self).max_ticks, old(self).tick));
                &&& done is Ok <==> asked is Some
                &&& asked is None ==> final(self)@ == old(self)@
                &&& done matches Err(refusal) ==> refusal == refusal_of(
                    request,
                    since(old(self).max_ticks, old(self).tick),
                )
                &&& asked matches Some(scenario) ==> exists|targets: Seq<usize>| #[trigger]
                    resolves(scenario.target, old(self)@, targets) && final(self)@ == old(self)@.under_attack(
                        scenario,
                        targets,
                    )
            }),
            same_nodes(old(self)@, final(self)@),
            final(self)@.wired(),
            old(self)@.sound() ==> final(self)@.sound(),
    {
        match request.scenario(self.remaining_ticks()) {
            Ok(scenario) => {
                self.apply_scenario(scenario);
                Ok(())
            },
            Err(refusal) => Err(refusal),
        }
    }
}

} // verus!
