//! What the simulator's runner is asked for on its command line.

use vstd::prelude::*;
use crate::overlay::sim::scenario::{scenario_names, scenarios};
use crate::text::{
    decimal_of, law_numbers_are_read_back, lit, number, parse_number, same_text,
};

verus! {

/// A run that was asked for.
#[derive(Debug)]
pub struct Args {
    pub seed: u64,
    pub scenario: String,
    pub verbose: bool,
    /// Whether to go on, seed after seed, until a run fails.
    pub until_failure: bool,
    /// Whether to list the scenarios and run none.
    pub list: bool,
}

#[derive(Debug)]
pub enum ArgsError {
    /// `--seed` stands last.
    SeedMissing,
    /// What follows `--seed` is no number, or too large a one.
    SeedInvalid(String),
    /// `--scenario` stands last.
    ScenarioMissing,
    /// Help was asked for.
    Help,
    Unknown(String),
}

/// A run that was asked for, as the contracts speak of it.
pub struct ArgsView {
    pub seed: u64,
    pub scenario: Seq<char>,
    pub verbose: bool,
    pub until_failure: bool,
    pub list: bool,
}

pub enum ArgsErrorView {
    SeedMissing,
    SeedInvalid(Seq<char>),
    ScenarioMissing,
    Help,
    Unknown(Seq<char>),
}

impl Args {
    pub open spec fn view(&self) -> ArgsView {
        ArgsView {
            seed: self.seed,
            scenario: self.scenario@,
            verbose: self.verbose,
            until_failure: self.until_failure,
            list: self.list,
        }
    }
}

impl ArgsError {
    pub open spec fn view(&self) -> ArgsErrorView {
        match *self {
            ArgsError::SeedMissing => ArgsErrorView::SeedMissing,
            ArgsError::SeedInvalid(value) => ArgsErrorView::SeedInvalid(value@),
            ArgsError::ScenarioMissing => ArgsErrorView::ScenarioMissing,
            ArgsError::Help => ArgsErrorView::Help,
            ArgsError::Unknown(arg) => ArgsErrorView::Unknown(arg@),
        }
    }
}

/// What is run where nothing is asked for.
pub open spec fn plain_args() -> ArgsView {
    ArgsView {
        seed: 1,
        scenario: "two-node-lossy"@,
        verbose: false,
        until_failure: false,
        list: false,
    }
}

/// What the arguments from `at` on make of `so_far`. The first that cannot be
/// taken decides, and of two that say different things the later one.
pub open spec fn args_from(words: Seq<String>, at: int, so_far: ArgsView) -> Result<
    ArgsView,
    ArgsErrorView,
>
    decreases words.len() - at,
{
    if at >= words.len() {
        Ok(so_far)
    } else {
        let word = words[at]@;
        if word == "--seed"@ {
            if at + 1 >= words.len() {
                Err(ArgsErrorView::SeedMissing)
            } else {
                match number(lit(words[at + 1]@), u64::MAX as nat) {
                    Some(seed) => args_from(
                        words,
                        at + 2,
                        ArgsView { seed: seed as u64, ..so_far },
                    ),
                    None => Err(ArgsErrorView::SeedInvalid(words[at + 1]@)),
                }
            }
        } else if word == "--scenario"@ {
            if at + 1 >= words.len() {
                Err(ArgsErrorView::ScenarioMissing)
            } else {
                args_from(words, at + 2, ArgsView { scenario: words[at + 1]@, ..so_far })
            }
        } else if word == "--verbose"@ {
            args_from(words, at + 1, ArgsView { verbose: true, ..so_far })
        } else if word == "--until-failure"@ {
            args_from(words, at + 1, ArgsView { until_failure: true, ..so_far })
        } else if word == "--list"@ {
            args_from(words, at + 1, ArgsView { list: true, ..so_far })
        } else if word == "--help"@ || word == "-h"@ {
            Err(ArgsErrorView::Help)
        } else {
            Err(ArgsErrorView::Unknown(word))
        }
    }
}

/// Reads the arguments that follow the program's name.
pub fn parse_args(words: &Vec<String>) -> (r: Result<Args, ArgsError>)
    ensures
        match r {
            Ok(args) => args_from(words@, 0, plain_args()) == Ok::<ArgsView, ArgsErrorView>(
                args@,
            ),
            Err(e) => args_from(words@, 0, plain_args()) == Err::<ArgsView, ArgsErrorView>(e@),
        },
{
    let mut args = Args {
        seed: 1,
        scenario: String::from_str("two-node-lossy"),
        verbose: false,
        until_failure: false,
        list: false,
    };
    let mut i: usize = 0;
    while i < words.len()
        invariant
            i <= words@.len(),
            args_from(words@, 0, plain_args()) == args_from(words@, i as int, args@),
        decreases words@.len() - i,
    {
        let word = words[i].as_str();
        let takes_value = same_text(word, "--seed") || same_text(word, "--scenario");
        if same_text(word, "--seed") {
            if i + 1 >= words.len() {
                return Err(ArgsError::SeedMissing);
            }
            let value = &words[i + 1];
            match parse_number(value.as_str().as_bytes(), u64::MAX) {
                Some(seed) => {
                    args.seed = seed;
                },
                None => {
                    return Err(ArgsError::SeedInvalid(value.clone()));
                },
            }
        } else if same_text(word, "--scenario") {
            if i + 1 >= words.len() {
                return Err(ArgsError::ScenarioMissing);
            }
            args.scenario = words[i + 1].clone();
        } else if same_text(word, "--verbose") {
            args.verbose = true;
        } else if same_text(word, "--until-failure") {
            args.until_failure = true;
        } else if same_text(word, "--list") {
            args.list = true;
        } else if same_text(word, "--help") || same_text(word, "-h") {
            return Err(ArgsError::Help);
        } else {
            return Err(ArgsError::Unknown(words[i].clone()));
        }
        i += if takes_value {
            2
        } else {
            1
        };
    }
    Ok(args)
}

/// What std says of a text that is no `u64`.
pub uninterp spec fn u64_problem(text: Seq<char>) -> Seq<char>;

/// `str::parse`, and the text of its error: a function of what is parsed. There
/// is none where it is a number.
#[verifier::external_body]
fn parse_problem(text: &str) -> (problem: String)
    ensures
        problem@ == u64_problem(text@),
{
    text.parse::<u64>().err().map(|e| e.to_string()).unwrap_or_default()
}

/// Texts with a comma between them.
pub open spec fn listed(names: Seq<Seq<char>>) -> Seq<char>
    decreases names.len(),
{
    if names.len() == 0 {
        Seq::empty()
    } else if names.len() == 1 {
        names[0]
    } else {
        listed(names.drop_last()) + ", "@ + names.last()
    }
}

impl ArgsErrorView {
    /// What the runner says about it.
    pub open spec fn text(self) -> Seq<char> {
        match self {
            ArgsErrorView::SeedMissing => "--seed requires a value"@,
            ArgsErrorView::SeedInvalid(value) => "invalid --seed "@ + value + ": "@ + u64_problem(
                value,
            ),
            ArgsErrorView::ScenarioMissing => "--scenario requires a value"@,
            ArgsErrorView::Help => USAGE@ + listed(scenario_names()),
            ArgsErrorView::Unknown(word) => "unknown argument "@ + word,
        }
    }
}

pub const USAGE: &'static str =
    "usage: overlay-sim [--seed N] [--scenario NAME] [--verbose] [--until-failure] [--list]\nscenarios: ";

/// The names of the scenarios, with commas between them.
fn list_scenarios() -> (text: String)
    ensures
        text@ == listed(scenario_names()),
{
    let names = scenarios();
    let ghost all = scenario_names();
    let mut text = String::new();
    let mut i: usize = 0;
    assert(all.take(0) =~= Seq::empty());
    assert(text@ =~= listed(all.take(0)));
    while i < names.len()
        invariant
            all == scenario_names(),
            names@.len() == all.len(),
            forall|k: int| 0 <= k < names@.len() ==> (#[trigger] names@[k])@ == all[k],
            i <= names@.len(),
            text@ == listed(all.take(i as int)),
        decreases names@.len() - i,
    {
        let ghost had = text@;
        if i > 0 {
            text.append(", ");
        }
        text.append(names[i]);
        i += 1;
        proof {
            let next = all.take(i as int);
            assert(next.drop_last() =~= all.take(i - 1));
            assert(next.last() == all[i - 1]);
            if i == 1 {
                assert(had =~= Seq::empty());
                assert(next[0] == all[0]);
                assert(text@ =~= all[0]);
            } else {
                assert(text@ =~= had + ", "@ + all[i - 1]);
            }
        }
    }
    assert(all.take(i as int) =~= all);
    text
}

impl ArgsError {
    /// What the runner says about it.
    pub fn message(&self) -> (text: String)
        ensures
            text@ == self@.text(),
    {
        match self {
            ArgsError::SeedMissing => String::from_str("--seed requires a value"),
            ArgsError::SeedInvalid(value) => {
                let mut text = String::from_str("invalid --seed ");
                text.append(value.as_str());
                text.append(": ");
                let problem = parse_problem(value.as_str());
                text.append(problem.as_str());
                text
            },
            ArgsError::ScenarioMissing => String::from_str("--scenario requires a value"),
            ArgsError::Help => {
                let mut text = String::from_str(USAGE);
                let names = list_scenarios();
                text.append(names.as_str());
                text
            },
            ArgsError::Unknown(word) => {
                let mut text = String::from_str("unknown argument ");
                text.append(word.as_str());
                text
            },
        }
    }
}

/// Arguments are read one after the other: what stands first is read as if it
/// stood alone, and what follows is read on top of it.
pub proof fn law_arguments_add_up(
    first: Seq<String>,
    second: Seq<String>,
    at: int,
    so_far: ArgsView,
)
    requires
        0 <= at <= first.len(),
    ensures
        match args_from(first, at, so_far) {
            Ok(args) => args_from(first + second, at, so_far) == args_from(second, 0, args),
            Err(ArgsErrorView::SeedMissing) => true,
            Err(ArgsErrorView::ScenarioMissing) => true,
            Err(e) => args_from(first + second, at, so_far) == Err::<ArgsView, ArgsErrorView>(e),
        },
    decreases first.len() - at,
{
    let all = first + second;
    if at >= first.len() {
        lemma_args_shifted(first, second, 0, so_far);
    } else {
        assert(all[at] == first[at]);
        let word = first[at]@;
        if word == "--seed"@ {
            if at + 1 < first.len() {
                assert(all[at + 1] == first[at + 1]);
                match number(lit(first[at + 1]@), u64::MAX as nat) {
                    Some(seed) => {
                        law_arguments_add_up(
                            first,
                            second,
                            at + 2,
                            ArgsView { seed: seed as u64, ..so_far },
                        );
                    },
                    None => {},
                }
            }
        } else if word == "--scenario"@ {
            if at + 1 < first.len() {
                assert(all[at + 1] == first[at + 1]);
                law_arguments_add_up(
                    first,
                    second,
                    at + 2,
                    ArgsView { scenario: first[at + 1]@, ..so_far },
                );
            }
        } else if word == "--verbose"@ {
            law_arguments_add_up(first, second, at + 1, ArgsView { verbose: true, ..so_far });
        } else if word == "--until-failure"@ {
            law_arguments_add_up(
                first,
                second,
                at + 1,
                ArgsView { until_failure: true, ..so_far },
            );
        } else if word == "--list"@ {
            law_arguments_add_up(first, second, at + 1, ArgsView { list: true, ..so_far });
        }
    }
}

proof fn lemma_args_shifted(first: Seq<String>, second: Seq<String>, at: int, so_far: ArgsView)
    requires
        0 <= at,
    ensures
        args_from(first + second, first.len() + at, so_far) == args_from(second, at, so_far),
    decreases second.len() - at,
{
    let all = first + second;
    let n = first.len() + at;
    if at < second.len() {
        assert(all[n] == second[at]);
        let word = second[at]@;
        if word == "--seed"@ {
            if at + 1 < second.len() {
                assert(all[n + 1] == second[at + 1]);
                match number(lit(second[at + 1]@), u64::MAX as nat) {
                    Some(seed) => {
                        lemma_args_shifted(
                            first,
                            second,
                            at + 2,
                            ArgsView { seed: seed as u64, ..so_far },
                        );
                    },
                    None => {},
                }
            }
        } else if word == "--scenario"@ {
            if at + 1 < second.len() {
                assert(all[n + 1] == second[at + 1]);
                lemma_args_shifted(
                    first,
                    second,
                    at + 2,
                    ArgsView { scenario: second[at + 1]@, ..so_far },
                );
            }
        } else if word == "--verbose"@ {
            lemma_args_shifted(first, second, at + 1, ArgsView { verbose: true, ..so_far });
        } else if word == "--until-failure"@ {
            lemma_args_shifted(first, second, at + 1, ArgsView { until_failure: true, ..so_far });
        } else if word == "--list"@ {
            lemma_args_shifted(first, second, at + 1, ArgsView { list: true, ..so_far });
        }
    }
}

/// What each argument asks for, whatever was asked for before it.
pub proof fn law_what_arguments_ask_for(words: Seq<String>, so_far: ArgsView, seed: u64)
    ensures
        words.len() == 0 ==> args_from(words, 0, so_far) == Ok::<ArgsView, ArgsErrorView>(so_far),
        words.len() == 1 && words[0]@ == "--verbose"@ ==> (args_from(words, 0, so_far) matches Ok(a)
            && a.verbose && a.seed == so_far.seed && a.scenario == so_far.scenario
            && a.until_failure == so_far.until_failure && a.list == so_far.list),
        words.len() == 1 && words[0]@ == "--until-failure"@ ==> (args_from(
            words,
            0,
            so_far,
        ) matches Ok(a) && a.until_failure && a.seed == so_far.seed && a.scenario
            == so_far.scenario && a.verbose == so_far.verbose && a.list == so_far.list),
        words.len() == 1 && words[0]@ == "--list"@ ==> (args_from(words, 0, so_far) matches Ok(a)
            && a.list && a.seed == so_far.seed && a.scenario == so_far.scenario && a.verbose
            == so_far.verbose && a.until_failure == so_far.until_failure),
        words.len() == 2 && words[0]@ == "--scenario"@ ==> (args_from(words, 0, so_far) matches Ok(
            a,
        ) && a.scenario == words[1]@ && a.seed == so_far.seed && a.verbose == so_far.verbose
            && a.list == so_far.list && a.until_failure == so_far.until_failure),
        words.len() == 2 && words[0]@ == "--seed"@ && lit(words[1]@) == decimal_of(seed as nat)
            ==> (args_from(words, 0, so_far) matches Ok(a) && a.seed == seed && a.scenario
            == so_far.scenario && a.verbose == so_far.verbose && a.list == so_far.list
            && a.until_failure == so_far.until_failure),
        words.len() == 1 && words[0]@ == "--seed"@ ==> args_from(words, 0, so_far) == Err::<
            ArgsView,
            ArgsErrorView,
        >(ArgsErrorView::SeedMissing),
        words.len() == 1 && words[0]@ == "--scenario"@ ==> args_from(words, 0, so_far) == Err::<
            ArgsView,
            ArgsErrorView,
        >(ArgsErrorView::ScenarioMissing),
        words.len() == 1 && (words[0]@ == "-h"@ || words[0]@ == "--help"@) ==> args_from(
            words,
            0,
            so_far,
        ) == Err::<ArgsView, ArgsErrorView>(ArgsErrorView::Help),
{
    reveal_strlit("--seed");
    reveal_strlit("--scenario");
    reveal_strlit("--verbose");
    reveal_strlit("--until-failure");
    reveal_strlit("--list");
    reveal_strlit("--help");
    reveal_strlit("-h");
    reveal_with_fuel(args_from, 2);
    law_numbers_are_read_back(seed as nat, u64::MAX as nat);
    if words.len() > 0 {
        let w = words[0]@;
        if w == "--scenario"@ {
            assert(w[2] != "--seed"@[2] || w[3] != "--seed"@[3]);
        }
        if w == "--verbose"@ {
            assert(w[2] == 'v');
            assert("--seed"@[2] == 's' && "--scenario"@[2] == 's');
        }
        if w == "--until-failure"@ {
            assert(w[2] == 'u');
            assert("--seed"@[2] == 's' && "--scenario"@[2] == 's' && "--verbose"@[2] == 'v');
        }
        if w == "--list"@ {
            assert(w[2] == 'l');
            assert("--seed"@[2] == 's' && "--scenario"@[2] == 's' && "--verbose"@[2] == 'v'
                && "--until-failure"@[2] == 'u');
        }
        if w == "--help"@ {
            assert(w[2] == 'h');
            assert("--seed"@[2] == 's' && "--scenario"@[2] == 's' && "--verbose"@[2] == 'v'
                && "--until-failure"@[2] == 'u' && "--list"@[2] == 'l');
        }
        if w == "-h"@ {
            assert(w.len() == 2);
        }
    }
}

/// Where nothing is asked for, the first scenario runs once, with the first seed,
/// and quietly.
pub proof fn law_plain_run()
    ensures
        plain_args().seed == 1,
        plain_args().scenario == "two-node-lossy"@,
        plain_args().scenario == scenario_names()[0],
        !plain_args().verbose,
        !plain_args().until_failure,
        !plain_args().list,
        args_from(Seq::empty(), 0, plain_args()) == Ok::<ArgsView, ArgsErrorView>(plain_args()),
{
}

} // verus!
