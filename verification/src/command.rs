//! The command line: which command is asked for, on which regions, and with which
//! settings.

use crate::config::Config;
use crate::text;
use vstd::prelude::*;

verus! {

/// What a command line asks for.
#[derive(Debug)]
pub struct Invocation {
    pub cfg: Config,
    pub command: Option<String>,
    pub regions: Vec<String>,
    pub land: bool,
    pub europe: bool,
    pub log: Option<String>,
}

/// What a command line asks for, as plain values.
pub struct Asked {
    pub pbf: Seq<char>,
    pub duckdb: Seq<char>,
    pub pmtiles: Seq<char>,
    pub memory: Option<Seq<char>>,
    pub jobs: nat,
    pub command: Option<Seq<char>>,
    pub regions: Seq<Seq<char>>,
    pub land: bool,
    pub europe: bool,
    pub log: Option<Seq<char>>,
}

impl View for Invocation {
    type V = Asked;

    open spec fn view(&self) -> Asked {
        Asked {
            pbf: self.cfg.pbf@,
            duckdb: self.cfg.duckdb@,
            pmtiles: self.cfg.pmtiles@,
            memory: text::text_of(self.cfg.memory),
            jobs: self.cfg.jobs as nat,
            command: text::text_of(self.command),
            regions: text::texts(self.regions@),
            land: self.land,
            europe: self.europe,
            log: text::text_of(self.log),
        }
    }
}

/// What is asked for before anything is read.
pub open spec fn nothing_asked() -> Asked {
    Asked {
        pbf: "pbf"@,
        duckdb: "duckdb"@,
        pmtiles: "pmtiles"@,
        memory: None,
        jobs: 3,
        command: None,
        regions: Seq::empty(),
        land: false,
        europe: false,
        log: None,
    }
}

/// What reading a command line comes to.
#[derive(Debug)]
pub enum Reading {
    /// Help was asked for.
    Help,
    /// Something is to be run.
    Run(Invocation),
    /// An option stands last that takes a value.
    NeedsValue(String),
    /// The number of downloads is no number.
    BadJobs(String),
    /// There is no such option.
    UnknownOption(String),
}

/// What reading a command line comes to, as plain values.
pub enum Meaning {
    Help,
    Run(Asked),
    NeedsValue(Seq<char>),
    BadJobs(Seq<char>),
    UnknownOption(Seq<char>),
}

impl View for Reading {
    type V = Meaning;

    open spec fn view(&self) -> Meaning {
        match self {
            Reading::Help => Meaning::Help,
            Reading::Run(r) => Meaning::Run(r@),
            Reading::NeedsValue(s) => Meaning::NeedsValue(s@),
            Reading::BadJobs(s) => Meaning::BadJobs(s@),
            Reading::UnknownOption(s) => Meaning::UnknownOption(s@),
        }
    }
}

/// The options that take the next argument as their value.
pub open spec fn takes_value(arg: Seq<char>) -> bool {
    arg == "--pbf"@ || arg == "--duckdb"@ || arg == "--pmtiles"@ || arg == "--memory"@ || arg == "--jobs"@ || arg
        == "--log"@
}

/// What an option with its value changes; nothing comes of a number that is none.
pub open spec fn set(asked: Asked, option: Seq<char>, value: Seq<char>) -> Option<Asked> {
    if option == "--pbf"@ {
        Some(Asked { pbf: value, ..asked })
    } else if option == "--duckdb"@ {
        Some(Asked { duckdb: value, ..asked })
    } else if option == "--pmtiles"@ {
        Some(Asked { pmtiles: value, ..asked })
    } else if option == "--memory"@ {
        Some(Asked { memory: Some(value), ..asked })
    } else if option == "--log"@ {
        Some(Asked { log: Some(value), ..asked })
    } else {
        match text::parsed(value, usize::MAX as nat) {
            Some(n) => Some(Asked { jobs: n, ..asked }),
            None => None,
        }
    }
}

/// What the arguments from the `i`-th on come to, given what those in front asked
/// for. The first argument that is no option is the command, and the others are
/// regions.
pub open spec fn meaning(args: Seq<Seq<char>>, i: int, asked: Asked) -> Meaning
    decreases args.len() - i,
{
    if i >= args.len() {
        Meaning::Run(asked)
    } else if args[i] == "-h"@ || args[i] == "--help"@ {
        Meaning::Help
    } else if takes_value(args[i]) {
        if i + 1 >= args.len() {
            Meaning::NeedsValue(args[i])
        } else {
            match set(asked, args[i], args[i + 1]) {
                Some(next) => meaning(args, i + 2, next),
                None => Meaning::BadJobs(args[i + 1]),
            }
        }
    } else if args[i] == "--land"@ {
        meaning(args, i + 1, Asked { land: true, ..asked })
    } else if args[i] == "--europe"@ {
        meaning(args, i + 1, Asked { europe: true, ..asked })
    } else if args[i].len() > 0 && args[i][0] == '-' {
        Meaning::UnknownOption(args[i])
    } else if asked.command is None {
        meaning(args, i + 1, Asked { command: Some(args[i]), ..asked })
    } else {
        meaning(args, i + 1, Asked { regions: asked.regions.push(args[i]), ..asked })
    }
}

fn is_option_with_value(arg: &str) -> (r: bool)
    ensures
        r == takes_value(arg@),
{
    text::same(arg, "--pbf") || text::same(arg, "--duckdb") || text::same(arg, "--pmtiles") || text::same(
        arg,
        "--memory",
    ) || text::same(arg, "--jobs") || text::same(arg, "--log")
}

impl Invocation {
    /// Takes an option and its value in; whether the value makes sense.
    fn set(&mut self, option: &str, value: &str) -> (ok: bool)
        requires
            takes_value(option@),
        ensures
            match set(old(self)@, option@, value@) {
                Some(next) => ok && final(self)@ == next,
                None => !ok,
            },
    {
        if text::same(option, "--pbf") {
            self.cfg.pbf = value.to_owned();
        } else if text::same(option, "--duckdb") {
            self.cfg.duckdb = value.to_owned();
        } else if text::same(option, "--pmtiles") {
            self.cfg.pmtiles = value.to_owned();
        } else if text::same(option, "--memory") {
            self.cfg.memory = Some(value.to_owned());
        } else if text::same(option, "--log") {
            self.log = Some(value.to_owned());
        } else {
            match text::parse(value, usize::MAX as u64) {
                Some(n) => {
                    self.cfg.jobs = n as usize;
                },
                None => {
                    return false;
                },
            }
        }
        true
    }
}

/// Reads a command line, without the name of the program.
pub fn read(args: &Vec<String>) -> (r: Reading)
    ensures
        r@ == meaning(text::texts(args@), 0, nothing_asked()),
{
    let mut asked: Invocation = Invocation {
        cfg: Config {
            pbf: "pbf".to_owned(),
            duckdb: "duckdb".to_owned(),
            pmtiles: "pmtiles".to_owned(),
            memory: None,
            jobs: 3,
        },
        command: None,
        regions: Vec::new(),
        land: false,
        europe: false,
        log: None,
    };
    let mut i: usize = 0;
    let ghost all = text::texts(args@);
    assert(asked@.regions =~= Seq::empty());
    while i < args.len()
        invariant
            i <= args@.len(),
            all == text::texts(args@),
            meaning(all, 0, nothing_asked()) == meaning(all, i as int, asked@),
        decreases args@.len() - i,
    {
        let arg: &str = args[i].as_str();
        assert(all[i as int] == arg@);
        if text::same(arg, "-h") || text::same(arg, "--help") {
            return Reading::Help;
        }
        if is_option_with_value(arg) {
            if args.len() - i <= 1 {
                return Reading::NeedsValue(arg.to_owned());
            }
            let value: &str = args[i + 1].as_str();
            assert(all[i + 1] == value@);
            if !asked.set(arg, value) {
                return Reading::BadJobs(value.to_owned());
            }
            i = i + 2;
        } else {
            let ghost before = asked@;
            if text::same(arg, "--land") {
                asked.land = true;
            } else if text::same(arg, "--europe") {
                asked.europe = true;
            } else if text::begins_with(arg, '-') {
                return Reading::UnknownOption(arg.to_owned());
            } else if asked.command.is_none() {
                asked.command = Some(arg.to_owned());
            } else {
                asked.regions.push(arg.to_owned());
                assert(asked@.regions =~= before.regions.push(arg@));
            }
            i = i + 1;
        }
    }
    Reading::Run(asked)
}

/// The commands.
#[derive(Clone, Copy, Debug, PartialEq, Eq, Structural)]
pub enum Command {
    Download,
    Load,
    Bake,
    Export,
    All,
    Info,
    Regions,
    Sql,
}

/// The command of a name.
pub open spec fn command_of(word: Seq<char>) -> Option<Command> {
    if word == "download"@ {
        Some(Command::Download)
    } else if word == "load"@ {
        Some(Command::Load)
    } else if word == "bake"@ {
        Some(Command::Bake)
    } else if word == "export"@ {
        Some(Command::Export)
    } else if word == "all"@ {
        Some(Command::All)
    } else if word == "info"@ {
        Some(Command::Info)
    } else if word == "regions"@ {
        Some(Command::Regions)
    } else if word == "sql"@ {
        Some(Command::Sql)
    } else {
        None
    }
}

/// Finds the command of a name.
pub fn command(word: &str) -> (r: Option<Command>)
    ensures
        r == command_of(word@),
{
    if text::same(word, "download") {
        Some(Command::Download)
    } else if text::same(word, "load") {
        Some(Command::Load)
    } else if text::same(word, "bake") {
        Some(Command::Bake)
    } else if text::same(word, "export") {
        Some(Command::Export)
    } else if text::same(word, "all") {
        Some(Command::All)
    } else if text::same(word, "info") {
        Some(Command::Info)
    } else if text::same(word, "regions") {
        Some(Command::Regions)
    } else if text::same(word, "sql") {
        Some(Command::Sql)
    } else {
        None
    }
}

/// The stages of a build.
#[derive(Clone, Copy, Debug, PartialEq, Eq, Structural)]
pub enum Stage {
    Load,
    Bake,
    Export,
}

/// The stages that a command runs, in order; none where it runs no part of a build.
pub open spec fn stages_of(command: Command) -> Seq<Stage> {
    match command {
        Command::All => seq![Stage::Load, Stage::Bake, Stage::Export],
        Command::Load => seq![Stage::Load],
        Command::Bake => seq![Stage::Bake],
        Command::Export => seq![Stage::Export],
        _ => Seq::empty(),
    }
}

/// The stages that a command runs, in order.
pub fn stages(command: Command) -> (out: Vec<Stage>)
    ensures
        out@ == stages_of(command),
{
    let out: Vec<Stage> = match command {
        Command::All => vec![Stage::Load, Stage::Bake, Stage::Export],
        Command::Load => vec![Stage::Load],
        Command::Bake => vec![Stage::Bake],
        Command::Export => vec![Stage::Export],
        _ => Vec::new(),
    };
    assert(out@ =~= stages_of(command));
    out
}

/// Whether a download fetches the coastline: where it is asked for, and where nothing
/// else is, for a download of nothing would look like success.
pub fn fetches_land(asked: &Invocation) -> (r: bool)
    ensures
        r == (asked.land || (asked.regions@.len() == 0 && !asked.europe)),
{
    asked.land || (asked.regions.len() == 0 && !asked.europe)
}

proof fn lemma_meaning_of_the_rest(front: Seq<Seq<char>>, rest: Seq<Seq<char>>, i: int, asked: Asked)
    requires
        0 <= i,
    ensures
        meaning(front + rest, front.len() + i, asked) == meaning(rest, i, asked),
    decreases rest.len() - i,
{
    let all = front + rest;
    if i < rest.len() {
        let at = front.len() + i;
        assert(all[at] == rest[i]);
        if i + 1 < rest.len() {
            assert(all[at + 1] == rest[i + 1]);
            if let Some(next) = set(asked, rest[i], rest[i + 1]) {
                lemma_meaning_of_the_rest(front, rest, i + 2, next);
            }
        }
        lemma_meaning_of_the_rest(front, rest, i + 1, Asked { land: true, ..asked });
        lemma_meaning_of_the_rest(front, rest, i + 1, Asked { europe: true, ..asked });
        lemma_meaning_of_the_rest(front, rest, i + 1, Asked { command: Some(rest[i]), ..asked });
        lemma_meaning_of_the_rest(front, rest, i + 1, Asked { regions: asked.regions.push(rest[i]), ..asked });
    }
}

proof fn lemma_options()
    ensures
        "--pbf"@.len() == 5,
        "--log"@.len() == 5,
        "--land"@.len() == 6,
        "--jobs"@.len() == 6,
        "--duckdb"@.len() == 8,
        "--memory"@.len() == 8,
        "--europe"@.len() == 8,
        "--pmtiles"@.len() == 9,
        "-h"@.len() == 2,
        "--help"@.len() == 6,
        "--pbf"@[2] == 'p',
        "--log"@[2] == 'l',
        "--land"@[2] == 'l',
        "--jobs"@[2] == 'j',
        "--help"@[2] == 'h',
        "--duckdb"@[2] == 'd',
        "--memory"@[2] == 'm',
        "--europe"@[2] == 'e',
        "--pbf"@[0] == '-' && "--log"@[0] == '-' && "--land"@[0] == '-' && "--jobs"@[0] == '-' && "--duckdb"@[0] == '-',
        "--memory"@[0] == '-' && "--europe"@[0] == '-' && "--pmtiles"@[0] == '-' && "-h"@[0] == '-' && "--help"@[0] == '-',
{
    reveal_strlit("--pbf");
    reveal_strlit("--log");
    reveal_strlit("--land");
    reveal_strlit("--jobs");
    reveal_strlit("--duckdb");
    reveal_strlit("--memory");
    reveal_strlit("--europe");
    reveal_strlit("--pmtiles");
    reveal_strlit("-h");
    reveal_strlit("--help");
}

/// **An option takes the word behind it for its value, and changes nothing else.** What
/// follows is read as if it stood alone.
pub proof fn law_an_option_takes_the_word_behind_it(value: Seq<char>, rest: Seq<Seq<char>>, asked: Asked)
    ensures
        meaning(seq!["--pbf"@, value] + rest, 0, asked) == meaning(rest, 0, Asked { pbf: value, ..asked }),
        meaning(seq!["--duckdb"@, value] + rest, 0, asked) == meaning(rest, 0, Asked { duckdb: value, ..asked }),
        meaning(seq!["--pmtiles"@, value] + rest, 0, asked) == meaning(rest, 0, Asked { pmtiles: value, ..asked }),
        meaning(seq!["--memory"@, value] + rest, 0, asked) == meaning(rest, 0, Asked { memory: Some(value), ..asked }),
        meaning(seq!["--log"@, value] + rest, 0, asked) == meaning(rest, 0, Asked { log: Some(value), ..asked }),
        meaning(seq!["--jobs"@, value] + rest, 0, asked) == match text::parsed(value, usize::MAX as nat) {
            Some(n) => meaning(rest, 0, Asked { jobs: n, ..asked }),
            None => Meaning::BadJobs(value),
        },
        meaning(seq!["--land"@] + rest, 0, asked) == meaning(rest, 0, Asked { land: true, ..asked }),
        meaning(seq!["--europe"@] + rest, 0, asked) == meaning(rest, 0, Asked { europe: true, ..asked }),
        meaning(seq!["--help"@] + rest, 0, asked) is Help,
        meaning(seq!["-h"@] + rest, 0, asked) is Help,
{
    lemma_options();
    lemma_meaning_of_the_rest(seq!["--pbf"@, value], rest, 0, Asked { pbf: value, ..asked });
    lemma_meaning_of_the_rest(seq!["--duckdb"@, value], rest, 0, Asked { duckdb: value, ..asked });
    lemma_meaning_of_the_rest(seq!["--pmtiles"@, value], rest, 0, Asked { pmtiles: value, ..asked });
    lemma_meaning_of_the_rest(seq!["--memory"@, value], rest, 0, Asked { memory: Some(value), ..asked });
    lemma_meaning_of_the_rest(seq!["--log"@, value], rest, 0, Asked { log: Some(value), ..asked });
    if let Some(n) = text::parsed(value, usize::MAX as nat) {
        lemma_meaning_of_the_rest(seq!["--jobs"@, value], rest, 0, Asked { jobs: n, ..asked });
    }
    lemma_meaning_of_the_rest(seq!["--land"@], rest, 0, Asked { land: true, ..asked });
    lemma_meaning_of_the_rest(seq!["--europe"@], rest, 0, Asked { europe: true, ..asked });
    assert((seq!["--pbf"@, value] + rest)[0] == "--pbf"@ && (seq!["--pbf"@, value] + rest)[1] == value);
    assert((seq!["--duckdb"@, value] + rest)[0] == "--duckdb"@ && (seq!["--duckdb"@, value] + rest)[1] == value);
    assert((seq!["--pmtiles"@, value] + rest)[0] == "--pmtiles"@ && (seq!["--pmtiles"@, value] + rest)[1] == value);
    assert((seq!["--memory"@, value] + rest)[0] == "--memory"@ && (seq!["--memory"@, value] + rest)[1] == value);
    assert((seq!["--log"@, value] + rest)[0] == "--log"@ && (seq!["--log"@, value] + rest)[1] == value);
    assert((seq!["--jobs"@, value] + rest)[0] == "--jobs"@ && (seq!["--jobs"@, value] + rest)[1] == value);
    assert((seq!["--land"@] + rest)[0] == "--land"@);
    assert((seq!["--europe"@] + rest)[0] == "--europe"@);
    assert((seq!["--help"@] + rest)[0] == "--help"@);
    assert((seq!["-h"@] + rest)[0] == "-h"@);
}

/// **The first word is the command, and the words behind it are the regions**, in their
/// order, where no word is an option.
pub proof fn law_words_are_the_command_and_its_regions(words: Seq<Seq<char>>, i: int, asked: Asked)
    requires
        0 <= i <= words.len(),
        forall|k: int| 0 <= k < words.len() ==> !((#[trigger] words[k]).len() > 0 && words[k][0] == '-'),
    ensures
        asked.command is Some ==> meaning(words, i, asked) == Meaning::Run(
            Asked { regions: asked.regions + words.skip(i), ..asked },
        ),
        asked.command is None && i < words.len() ==> meaning(words, i, asked) == Meaning::Run(
            Asked { command: Some(words[i]), regions: asked.regions + words.skip(i + 1), ..asked },
        ),
    decreases words.len() - i,
{
    lemma_options();
    if i == words.len() {
        assert(asked.regions + words.skip(i) =~= asked.regions);
    } else {
        let word = words[i];
        assert(!takes_value(word) && word != "-h"@ && word != "--help"@ && word != "--land"@ && word != "--europe"@);
        if asked.command is None {
            let next = Asked { command: Some(word), ..asked };
            law_words_are_the_command_and_its_regions(words, i + 1, next);
        } else {
            let next = Asked { regions: asked.regions.push(word), ..asked };
            law_words_are_the_command_and_its_regions(words, i + 1, next);
            assert(next.regions + words.skip(i + 1) =~= asked.regions + words.skip(i));
        }
    }
}

/// **To run everything is to load, then to bake, then to export**; what is no part of a
/// build runs nothing of it.
pub proof fn law_all_is_every_stage_in_turn(command: Command)
    ensures
        stages_of(Command::All) == stages_of(Command::Load) + stages_of(Command::Bake) + stages_of(Command::Export),
        stages_of(Command::Load) == seq![Stage::Load],
        stages_of(Command::Bake) == seq![Stage::Bake],
        stages_of(Command::Export) == seq![Stage::Export],
        stages_of(command).len() > 0 <==> command is All || command is Load || command is Bake || command is Export,
{
    assert(stages_of(Command::All) =~= stages_of(Command::Load) + stages_of(Command::Bake) + stages_of(
        Command::Export,
    ));
}

} // verus!
