use umpire::game::ai::ai_spec_from_unmatched;
use umpire::cli::{parse_ai_spec, parse_player_spec, parse_spec, read_piece_given, readable_spec, Specified};
use umpire::util::Wrap2d;
use umpire::game::ai::{AISpec, AiDevice, TrainingOutcome};
use umpire::game::player::PlayerType;

#[test]
fn test_parse_ai_spec() {
    assert_eq!(
        parse_ai_spec("rr"),
        Ok(vec![AISpec::Random { seed: None }, AISpec::Random { seed: None }])
    );

    assert_eq!(
        parse_ai_spec("r,r"),
        Ok(vec![AISpec::Random { seed: None }, AISpec::Random { seed: None }])
    );
}

#[test]
fn test_turn_over_mode() {}

#[test]
fn random_ai_names_and_seeds() {
    assert_eq!(AISpec::try_from_spec("r"), Ok(AISpec::Random { seed: None }));
    assert_eq!(AISpec::try_from_spec("r123"), Ok(AISpec::Random { seed: Some(123) }));
    assert_eq!(AISpec::try_from_spec("rand7"), Ok(AISpec::Random { seed: Some(7) }));
    assert_eq!(AISpec::try_from_spec("random"), Ok(AISpec::Random { seed: None }));
    assert_eq!(AISpec::try_from_spec("random0042"), Ok(AISpec::Random { seed: Some(42) }));
    assert_eq!(AISpec::try_from_spec("R"), Ok(AISpec::RandomPlus { seed: None }));
    assert_eq!(AISpec::try_from_spec("Random9"), Ok(AISpec::RandomPlus { seed: Some(9) }));
    assert_eq!(
        AISpec::try_from_spec("r18446744073709551615"),
        Ok(AISpec::Random { seed: Some(u64::MAX) })
    );
}

#[test]
fn other_ai_specs() {
    assert_eq!(AISpec::try_from_spec("s"), Ok(AISpec::Skip));
    assert_eq!(AISpec::try_from_spec("0"), Ok(AISpec::FromLevel { level: 0, device: AiDevice::Best }));
    assert_eq!(AISpec::try_from_spec("1"), Ok(AISpec::FromLevel { level: 1, device: AiDevice::Best }));
    assert_eq!(
        AISpec::try_from_spec("no-such-model.ai"),
        Err(String::from("Unrecognized AI specification 'no-such-model.ai'"))
    );
    assert_eq!(
        AISpec::try_from_spec("rando"),
        Err(String::from("Unrecognized AI specification 'rando'"))
    );
    assert_eq!(
        AISpec::try_from_spec("/"),
        Ok(AISpec::FromPath { path: String::from("/"), device: AiDevice::Best })
    );
}

#[test]
fn ai_spec_texts() {
    assert_eq!(AISpec::Random { seed: None }.desc(), "random");
    assert_eq!(AISpec::Random { seed: Some(31) }.desc(), "random(31)");
    assert_eq!(AISpec::RandomPlus { seed: Some(0) }.desc(), "random+(0)");
    assert_eq!(AISpec::Skip.desc(), "skip");
    assert_eq!(AISpec::FromLevel { level: 3, device: AiDevice::Cpu }.desc(), "level 3 AI");
    assert_eq!(
        AISpec::FromPath { path: String::from("ai/model.ai"), device: AiDevice::Best }.desc(),
        "AI from path ai/model.ai"
    );

    assert_eq!(AISpec::Random { seed: Some(31) }.spec(), "r31");
    assert_eq!(AISpec::RandomPlus { seed: None }.spec(), "R");
    assert_eq!(AISpec::Skip.spec(), "s");
    assert_eq!(AISpec::FromLevel { level: 12, device: AiDevice::Best }.spec(), "12");
    assert_eq!(
        AISpec::FromPath { path: String::from("ai/model.ai"), device: AiDevice::DiscreteGpu(1) }.spec(),
        "ai/model.ai"
    );
}

#[test]
fn ai_spec_round_trips_through_its_text() {
    for spec in [
        AISpec::Random { seed: None },
        AISpec::Random { seed: Some(31) },
        AISpec::RandomPlus { seed: None },
        AISpec::RandomPlus { seed: Some(u64::MAX) },
        AISpec::Skip,
        AISpec::FromLevel { level: 0, device: AiDevice::Best },
        AISpec::FromLevel { level: 1, device: AiDevice::Best },
    ] {
        assert_eq!(AISpec::try_from_spec(spec.spec().as_str()), Ok(spec.clone()));
    }
}

#[test]
fn parse_ai_spec_mixes_whole_pieces_and_characters() {
    assert_eq!(
        parse_ai_spec("r123,s0"),
        Ok(vec![
            AISpec::Random { seed: Some(123) },
            AISpec::Skip,
            AISpec::FromLevel { level: 0, device: AiDevice::Best },
        ])
    );
    assert_eq!(parse_ai_spec(""), Ok(vec![]));
    assert_eq!(parse_ai_spec("s,"), Ok(vec![AISpec::Skip]));
    assert_eq!(parse_ai_spec("sx"), Err(String::from("sx is not a valid AI specification")));
    assert_eq!(parse_ai_spec("r,q"), Err(String::from("q is not a valid AI specification")));
}

#[test]
fn player_specs() {
    assert_eq!(
        parse_player_spec("hr"),
        Ok(vec![PlayerType::Human, PlayerType::AI(AISpec::Random { seed: None })])
    );
    assert_eq!(
        parse_player_spec("human,r5"),
        Ok(vec![PlayerType::Human, PlayerType::AI(AISpec::Random { seed: Some(5) })])
    );
    assert_eq!(
        parse_player_spec("hhh"),
        Ok(vec![PlayerType::Human, PlayerType::Human, PlayerType::Human])
    );
    assert_eq!(parse_player_spec("hz"), Err(String::from("hz is not a valid player specification")));
    assert_eq!(PlayerType::try_from_spec("human"), Ok(PlayerType::Human));
    assert_eq!(PlayerType::Human.desc(), "human");
    assert_eq!(PlayerType::Human.spec(), "h");
    assert_eq!(PlayerType::AI(AISpec::Skip).desc(), "skip");
    assert_eq!(PlayerType::AI(AISpec::Random { seed: Some(2) }).spec(), "r2");
}

#[test]
fn player_type_values() {
    let values = PlayerType::values();
    assert_eq!(values[0], PlayerType::Human);
    assert_eq!(values[1], PlayerType::AI(AISpec::Random { seed: None }));
    assert_eq!(values[5], PlayerType::AI(AISpec::FromLevel { level: 4, device: AiDevice::Best }));
}

#[test]
fn training_outcomes() {
    let outcomes: Result<Vec<TrainingOutcome>, String> = parse_spec("vdi", "outcome");
    assert_eq!(
        outcomes,
        Ok(vec![TrainingOutcome::Victory, TrainingOutcome::Defeat, TrainingOutcome::Inconclusive])
    );
    assert_eq!(
        TrainingOutcome::try_from_spec("x"),
        Err(String::from("Unrecognized training outcome 'x'"))
    );
    assert_eq!(TrainingOutcome::values()[1], TrainingOutcome::Defeat);
    assert_eq!(TrainingOutcome::Inconclusive.desc(), "inconclusive");
    assert_eq!(TrainingOutcome::Victory.spec(), "v");
}

#[test]
fn wrapping_codes() {
    assert_eq!(Wrap2d::from_code("h"), Some(Wrap2d { horiz: true, vert: false }));
    assert_eq!(Wrap2d::from_code("v"), Some(Wrap2d { horiz: false, vert: true }));
    assert_eq!(Wrap2d::from_code("b"), Some(Wrap2d::both()));
    assert_eq!(Wrap2d::from_code("n"), Some(Wrap2d::neither()));
    assert_eq!(Wrap2d::from_code("x"), None);
    assert_eq!(Wrap2d::from_code("bb"), None);
    assert_eq!(Wrap2d::from_code(""), None);
}

#[test]
fn readable_player_specs() {
    assert!(readable_spec::<PlayerType>("h123"));
    assert!(readable_spec::<PlayerType>("h,r"));
    assert!(readable_spec::<AISpec>("r"));
    assert!(!readable_spec::<AISpec>("r99999999999999999999"));
}

#[test]
fn unmatched_ai_tokens_name_files() {
    assert_eq!(
        ai_spec_from_unmatched("models/x.ai", true),
        Ok(AISpec::FromPath { path: String::from("models/x.ai"), device: AiDevice::Best })
    );
    assert_eq!(
        ai_spec_from_unmatched("models/x.ai", false),
        Err(String::from("Unrecognized AI specification 'models/x.ai'"))
    );
}

#[test]
fn a_piece_read_whole_or_by_characters() {
    // A piece that names no file is read character by character.
    let mut items: Vec<AISpec> = vec![AISpec::Skip];
    let whole = Err(String::from("Unrecognized AI specification 'rr'"));
    assert_eq!(read_piece_given("rr", whole, "AI", &mut items), Ok(()));
    assert_eq!(items, vec![AISpec::Skip, AISpec::Random { seed: None }, AISpec::Random { seed: None }]);

    // One that names a file is taken whole.
    let mut items: Vec<AISpec> = Vec::new();
    let from_file = AISpec::FromPath { path: String::from("rr"), device: AiDevice::Best };
    assert_eq!(read_piece_given("rr", Ok(from_file.clone()), "AI", &mut items), Ok(()));
    assert_eq!(items, vec![from_file]);

    // A character that cannot be read either fails the piece.
    let mut items: Vec<AISpec> = Vec::new();
    let whole = Err(String::from("Unrecognized AI specification 'sx'"));
    assert_eq!(
        read_piece_given("sx", whole, "AI", &mut items),
        Err(String::from("sx is not a valid AI specification"))
    );
}
