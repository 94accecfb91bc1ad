use vstd::prelude::*;

verus! {

/// Whether two strings hold the same characters.
fn same_text(a: &str, b: &str) -> (r: bool)
    ensures
        r == (a@ == b@),
{
    let x: String = a.to_owned();
    let y: String = b.to_owned();
    x == y
}

/// How the tree search scores a child node.
#[derive(Clone, Copy, PartialEq, Eq, Debug, Structural)]
pub enum UcbType {
    Winrate,
    Ucb1,
    Ucb1Tuned,
}

pub open spec fn ucb_type_name(t: UcbType) -> Seq<char> {
    match t {
        UcbType::Winrate => "Winrate"@,
        UcbType::Ucb1 => "Ucb1"@,
        UcbType::Ucb1Tuned => "Ucb1Tuned"@,
    }
}

pub open spec fn parse_ucb_type(s: Seq<char>) -> Option<UcbType> {
    if s == "Winrate"@ {
        Some(UcbType::Winrate)
    } else if s == "Ucb1"@ {
        Some(UcbType::Ucb1)
    } else if s == "Ucb1Tuned"@ {
        Some(UcbType::Ucb1Tuned)
    } else {
        None
    }
}

impl UcbType {
    pub fn as_str(&self) -> (r: &'static str)
        ensures
            r@ == ucb_type_name(*self),
    {
        match self {
            UcbType::Winrate => "Winrate",
            UcbType::Ucb1 => "Ucb1",
            UcbType::Ucb1Tuned => "Ucb1Tuned",
        }
    }

    pub fn from_str(s: &str) -> (r: Option<UcbType>)
        ensures
            r == parse_ucb_type(s@),
    {
        if same_text(s, "Winrate") {
            Some(UcbType::Winrate)
        } else if same_text(s, "Ucb1") {
            Some(UcbType::Ucb1)
        } else if same_text(s, "Ucb1Tuned") {
            Some(UcbType::Ucb1Tuned)
        } else {
            None
        }
    }
}

/// How the tree search adjusts komi while it runs.
#[derive(Clone, Copy, PartialEq, Eq, Debug, Structural)]
pub enum UctKomiType {
    NoKomi,
    Static,
    Dynamic,
}

pub open spec fn uct_komi_type_name(t: UctKomiType) -> Seq<char> {
    match t {
        UctKomiType::NoKomi => "None"@,
        UctKomiType::Static => "Static"@,
        UctKomiType::Dynamic => "Dynamic"@,
    }
}

pub open spec fn parse_uct_komi_type(s: Seq<char>) -> Option<UctKomiType> {
    if s == "None"@ {
        Some(UctKomiType::NoKomi)
    } else if s == "Static"@ {
        Some(UctKomiType::Static)
    } else if s == "Dynamic"@ {
        Some(UctKomiType::Dynamic)
    } else {
        None
    }
}

impl UctKomiType {
    pub fn as_str(&self) -> (r: &'static str)
        ensures
            r@ == uct_komi_type_name(*self),
    {
        match self {
            UctKomiType::NoKomi => "None",
            UctKomiType::Static => "Static",
            UctKomiType::Dynamic => "Dynamic",
        }
    }

    pub fn from_str(s: &str) -> (r: Option<UctKomiType>)
        ensures
            r == parse_uct_komi_type(s@),
    {
        if same_text(s, "None") {
            Some(UctKomiType::NoKomi)
        } else if same_text(s, "Static") {
            Some(UctKomiType::Static)
        } else if same_text(s, "Dynamic") {
            Some(UctKomiType::Dynamic)
        } else {
            None
        }
    }
}

/// Which engine chooses the bot's move.
#[derive(Clone, Copy, PartialEq, Eq, Debug, Structural)]
pub enum Solver {
    Uct,
    Heuristic,
}

pub open spec fn solver_name(t: Solver) -> Seq<char> {
    match t {
        Solver::Uct => "Uct"@,
        Solver::Heuristic => "Heuristic"@,
    }
}

pub open spec fn parse_solver(s: Seq<char>) -> Option<Solver> {
    if s == "Uct"@ {
        Some(Solver::Uct)
    } else if s == "Heuristic"@ {
        Some(Solver::Heuristic)
    } else {
        None
    }
}

impl Solver {
    pub fn as_str(&self) -> (r: &'static str)
        ensures
            r@ == solver_name(*self),
    {
        match self {
            Solver::Uct => "Uct",
            Solver::Heuristic => "Heuristic",
        }
    }

    pub fn from_str(s: &str) -> (r: Option<Solver>)
        ensures
            r == parse_solver(s@),
    {
        if same_text(s, "Uct") {
            Some(Solver::Uct)
        } else if same_text(s, "Heuristic") {
            Some(Solver::Heuristic)
        } else {
            None
        }
    }
}

/// Each name parses back to the value it names.
pub proof fn lemma_names_round_trip(u: UcbType, k: UctKomiType, s: Solver)
    ensures
        parse_ucb_type(ucb_type_name(u)) == Some(u),
        parse_uct_komi_type(uct_komi_type_name(k)) == Some(k),
        parse_solver(solver_name(s)) == Some(s),
{
    reveal_strlit("Winrate");
    reveal_strlit("Ucb1");
    reveal_strlit("Ucb1Tuned");
    reveal_strlit("None");
    reveal_strlit("Static");
    reveal_strlit("Dynamic");
    reveal_strlit("Uct");
    reveal_strlit("Heuristic");
    assert("Winrate"@.len() == 7 && "Ucb1"@.len() == 4 && "Ucb1Tuned"@.len() == 9);
    assert("None"@.len() == 4 && "Static"@.len() == 6 && "Dynamic"@.len() == 7);
    assert("Uct"@.len() == 3 && "Heuristic"@.len() == 9);
}

/// Settings of the tree search that need no floating point.
#[derive(Clone, Copy, PartialEq, Eq, Debug, Structural)]
pub struct UctConfig {
    pub radius: u32,
    pub ucb_type: UcbType,
    pub final_ucb_type: UcbType,
    pub when_create_children: usize,
    pub depth: u32,
    pub komi_type: UctKomiType,
    pub komi_min_iterations: usize,
}

/// Settings of the bot.
#[derive(Clone, Copy, PartialEq, Eq, Debug, Structural)]
pub struct BotConfig {
    pub threads_count: Option<usize>,
    pub time_gap: u32,
}

/// The engine's configuration: built once, then passed to whoever reads it.
#[derive(Clone, Copy, PartialEq, Eq, Debug, Structural)]
pub struct Config {
    pub uct: UctConfig,
    pub bot: BotConfig,
}

impl Config {
    /// The configuration used when none is given.
    pub fn defaults() -> (r: Config)
        ensures
            r == (Config {
                uct: UctConfig {
                    radius: 3,
                    ucb_type: UcbType::Ucb1Tuned,
                    final_ucb_type: UcbType::Winrate,
                    when_create_children: 2,
                    depth: 8,
                    komi_type: UctKomiType::Dynamic,
                    komi_min_iterations: 3000,
                },
                bot: BotConfig { threads_count: None, time_gap: 100 },
            }),
    {
        Config {
            uct: UctConfig {
                radius: 3,
                ucb_type: UcbType::Ucb1Tuned,
                final_ucb_type: UcbType::Winrate,
                when_create_children: 2,
                depth: 8,
                komi_type: UctKomiType::Dynamic,
                komi_min_iterations: 3000,
            },
            bot: BotConfig { threads_count: None, time_gap: 100 },
        }
    }
}

pub fn uct_radius(config: &Config) -> (r: u32)
    ensures
        r == config.uct.radius,
{
    config.uct.radius
}

pub fn ucb_type(config: &Config) -> (r: UcbType)
    ensures
        r == config.uct.ucb_type,
{
    config.uct.ucb_type
}

pub fn final_ucb_type(config: &Config) -> (r: UcbType)
    ensures
        r == config.uct.final_ucb_type,
{
    config.uct.final_ucb_type
}

pub fn uct_when_create_children(config: &Config) -> (r: usize)
    ensures
        r == config.uct.when_create_children,
{
    config.uct.when_create_children
}

pub fn uct_depth(config: &Config) -> (r: u32)
    ensures
        r == config.uct.depth,
{
    config.uct.depth
}

/// The configured number of search threads, or `default_count` (the number
/// of processors) when none is configured.
pub fn threads_count(config: &Config, default_count: usize) -> (r: usize)
    ensures
        r == match config.bot.threads_count {
            Some(n) => n,
            None => default_count,
        },
{
    match config.bot.threads_count {
        Some(n) => n,
        None => default_count,
    }
}

pub fn uct_komi_type(config: &Config) -> (r: UctKomiType)
    ensures
        r == config.uct.komi_type,
{
    config.uct.komi_type
}

pub fn uct_komi_min_iterations(config: &Config) -> (r: usize)
    ensures
        r == config.uct.komi_min_iterations,
{
    config.uct.komi_min_iterations
}

pub fn time_gap(config: &Config) -> (r: u32)
    ensures
        r == config.bot.time_gap,
{
    config.bot.time_gap
}

/// Whether the tree search uses RAVE.
pub fn rave() -> (r: bool)
    ensures
        r,
{
    true
}

/// Whether the final move choice uses RAVE.
pub fn final_rave() -> (r: bool)
    ensures
        !r,
{
    false
}

} // verus!
