use lightbringer::overlay_sim::{parse_args, Args, ArgsError};

fn read(words: &[&str]) -> Result<Args, ArgsError> {
    parse_args(&words.iter().map(|w| w.to_string()).collect())
}

#[test]
fn nothing_asks_for_the_first_scenario() {
    let args = read(&[]).unwrap();
    assert_eq!(args.seed, 1);
    assert_eq!(args.scenario, "two-node-lossy");
    assert!(!args.verbose && !args.until_failure && !args.list);
}

#[test]
fn every_argument_is_read() {
    let args = read(&[
        "--seed", "42", "--scenario", "nat-classify", "--verbose", "--until-failure", "--list",
    ])
    .unwrap();
    assert_eq!(args.seed, 42);
    assert_eq!(args.scenario, "nat-classify");
    assert!(args.verbose && args.until_failure && args.list);
    assert_eq!(read(&["--seed", "7", "--seed", "+9"]).unwrap().seed, 9);
    assert_eq!(read(&["--scenario", "--list"]).unwrap().scenario, "--list");
}

#[test]
fn arguments_that_cannot_be_taken() {
    assert!(matches!(read(&["--seed"]), Err(ArgsError::SeedMissing)));
    assert!(matches!(read(&["--scenario"]), Err(ArgsError::ScenarioMissing)));
    assert!(matches!(read(&["--list", "-h"]), Err(ArgsError::Help)));
    assert!(matches!(read(&["--help", "--bogus"]), Err(ArgsError::Help)));
    for value in ["", "+", "-1", "1x", "18446744073709551616"] {
        match read(&["--seed", value]) {
            Err(ArgsError::SeedInvalid(given)) => assert_eq!(given, value),
            other => panic!("{other:?}"),
        }
        assert!(value.parse::<u64>().is_err());
    }
    match read(&["--verbose", "bogus"]) {
        Err(ArgsError::Unknown(arg)) => assert_eq!(arg, "bogus"),
        other => panic!("{other:?}"),
    }
}

#[test]
fn every_refusal_has_its_words() {
    let words = |args: &[&str]| read(args).unwrap_err().message();
    assert_eq!(words(&["--seed"]), "--seed requires a value");
    assert_eq!(words(&["--scenario"]), "--scenario requires a value");
    assert_eq!(words(&["x"]), "unknown argument x");
    assert_eq!(words(&["--seed", "1x"]), "invalid --seed 1x: invalid digit found in string");
    assert_eq!(
        words(&["--seed", ""]),
        "invalid --seed : cannot parse integer from empty string"
    );
    assert_eq!(
        words(&["-h"]),
        "usage: overlay-sim [--seed N] [--scenario NAME] [--verbose] [--until-failure] [--list]\n\
         scenarios: two-node-lossy, two-node-nat-sink, keepalive-nat, keepalive-nat-control, \
         nat-classify, two-node-lossy-v6, keepalive-firewall-v6, keepalive-firewall-v6-control"
    );
}
