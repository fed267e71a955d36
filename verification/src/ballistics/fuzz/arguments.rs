//! The command line of the fuzzer, and what its run is worth.

use crate::ballistics::fuzz::findings::{Report, Verdict};
use crate::ballistics::fuzz::rays::FuzzConfig;
use crate::text;
use crate::text::{parse_whole, same_text};
use vstd::prelude::*;

verus! {

/// How many rays a run from the command line fires where nothing else is asked for.
pub const BAKE_RAYS: u64 = 200_000;

/// What to run, and where to put the report.
#[derive(Debug)]
pub struct Arguments {
    pub config: FuzzConfig,
    pub out: String,
}

/// Why a command line is refused.
#[derive(Debug)]
pub enum ArgumentError {
    /// The flag is the last word.
    NeedsValue(String),
    /// The flag's value is not a whole number of 64 bits.
    NotANumber(String),
    UnknownFlag(String),
}

/// A refusal, as the contracts read it.
pub enum Refusal {
    NeedsValue(Seq<char>),
    NotANumber(Seq<char>),
    UnknownFlag(Seq<char>),
}

impl View for ArgumentError {
    type V = Refusal;

    open spec fn view(&self) -> Refusal {
        match self {
            ArgumentError::NeedsValue(flag) => Refusal::NeedsValue(flag@),
            ArgumentError::NotANumber(value) => Refusal::NotANumber(value@),
            ArgumentError::UnknownFlag(flag) => Refusal::UnknownFlag(flag@),
        }
    }
}

/// What the flags have asked for so far.
pub struct Asked {
    pub rays: u64,
    pub seed: u64,
    pub out: Seq<char>,
}

/// Reads flags, each with its value, from the first to the last; a later one overrides.
pub open spec fn read_flags(words: Seq<Seq<char>>, asked: Asked) -> Result<Asked, Refusal>
    decreases words.len(),
{
    if words.len() == 0 {
        Ok(asked)
    } else if words[0] != "--rays"@ && words[0] != "--seed"@ && words[0] != "--out"@ {
        Err(Refusal::UnknownFlag(words[0]))
    } else if words.len() == 1 {
        Err(Refusal::NeedsValue(words[0]))
    } else if words[0] == "--out"@ {
        read_flags(words.skip(2), Asked { out: words[1], ..asked })
    } else {
        match text::numeral(words[1]) {
            None => Err(Refusal::NotANumber(words[1])),
            Some(n) => if words[0] == "--rays"@ {
                read_flags(words.skip(2), Asked { rays: n, ..asked })
            } else {
                read_flags(words.skip(2), Asked { seed: n, ..asked })
            },
        }
    }
}

/// What is run where no flag is given.
pub open spec fn unasked() -> Asked {
    Asked {
        rays: BAKE_RAYS,
        seed: FuzzConfig::spec_default().seed,
        out: "target/ballistic-fuzzer-report.md"@,
    }
}

pub open spec fn words_of(args: Seq<String>) -> Seq<Seq<char>> {
    Seq::new(args.len(), |i: int| args[i]@)
}

/// Reads the words that follow the program's name.
pub fn arguments(args: &Vec<String>) -> (read: Result<Arguments, ArgumentError>)
    ensures
        match read {
            Ok(arguments) => {
                let asked = Asked { rays: arguments.config.rays, seed: arguments.config.seed, out: arguments.out@ };
                &&& read_flags(words_of(args@), unasked()) == Ok::<Asked, Refusal>(asked)
                &&& arguments.config == (FuzzConfig { rays: asked.rays, seed: asked.seed, ..FuzzConfig::spec_default() })
            },
            Err(error) => read_flags(words_of(args@), unasked()) == Err::<Asked, Refusal>(error@),
        },
{
    let ghost words = words_of(args@);
    let mut config: FuzzConfig = FuzzConfig::default();
    config.rays = BAKE_RAYS;
    let mut out: String = "target/ballistic-fuzzer-report.md".to_owned();
    let mut i: usize = 0;
    assert(words.skip(0) =~= words);
    while i < args.len()
        invariant
            i <= args@.len(),
            words == words_of(args@),
            config == (FuzzConfig { rays: config.rays, seed: config.seed, ..FuzzConfig::spec_default() }),
            read_flags(words, unasked()) == read_flags(
                words.skip(i as int),
                (Asked { rays: config.rays, seed: config.seed, out: out@ }),
            ),
        decreases args.len() - i,
    {
        let flag: &String = &args[i];
        let ghost rest = words.skip(i as int);
        assert(rest[0] == flag@);
        let rays: bool = same_text(flag.as_str(), "--rays");
        let seed: bool = same_text(flag.as_str(), "--seed");
        let to: bool = same_text(flag.as_str(), "--out");
        if !rays && !seed && !to {
            return Err(ArgumentError::UnknownFlag(flag.clone()));
        }
        if args.len() - i == 1 {
            return Err(ArgumentError::NeedsValue(flag.clone()));
        }
        let value: &String = &args[i + 1];
        assert(rest[1] == value@);
        assert(rest.skip(2) =~= words.skip(i + 2));
        if to {
            out = value.clone();
        } else {
            match parse_whole(value.as_str()) {
                None => {
                    return Err(ArgumentError::NotANumber(value.clone()));
                },
                Some(n) => {
                    if rays {
                        config.rays = n;
                    } else {
                        config.seed = n;
                    }
                },
            }
        }
        i = i + 2;
    }
    assert(words.skip(i as int) =~= Seq::<Seq<char>>::empty());
    Ok(Arguments { config, out })
}

/// The run is good: nothing broken, nothing unexplained, and nobody's corridor undecided.
pub fn gate_passes(report: &Report, verdict: &Verdict) -> (yes: bool)
    ensures
        yes == (report.clean() && verdict.unblessed@.len() == 0),
{
    report.is_clean() && verdict.unblessed.len() == 0
}

} // verus!
