use monitoring_rs::loadgen::{parse_database, parse_distribution, DatabaseArg, Distribution};

#[test]
fn load_generator_arguments() {
    assert_eq!(parse_database("crate"), Ok(DatabaseArg::Crate));
    assert_eq!(parse_database("sanakirja"), Ok(DatabaseArg::Sanakirja));
    assert_eq!(
        parse_database("sqlite"),
        Err("unrecognised database: sqlite".to_string())
    );
    assert_eq!(parse_distribution("uniform"), Ok(Distribution::Uniform));
    assert_eq!(parse_distribution("linear"), Ok(Distribution::Linear));
    assert_eq!(
        parse_distribution(""),
        Err("unrecognised distribution: ".to_string())
    );
}
