use gazflow::import_error::{Column, ImportError};
use gazflow::weather::parse_weather_csv;

fn t_ext(s: &str) -> f64 {
    s.parse().unwrap()
}

#[test]
fn test_parse_weather_csv_with_aliases() {
    let csv = "heure,temperature\n0,-6\n12,-2.5\n23,-5\n";
    let weather = parse_weather_csv(csv).expect("parse");
    assert_eq!(weather.len(), 3);
    assert_eq!(weather[1].hour, 12);
    assert!((t_ext(&weather[1].t_ext_c) + 2.5).abs() < 1e-9);
}

#[test]
fn test_parse_weather_csv_rejects_duplicate_hour() {
    let csv = "hour,t_ext_c\n0,-6\n0,-5\n";
    let err = parse_weather_csv(csv).expect_err("duplicate");
    assert!(err.message().contains("duplicate hour"));
}

#[test]
fn test_parse_weather_csv_rejects_invalid_hour() {
    let csv = "h,t\n24,-4\n";
    let err = parse_weather_csv(csv).expect_err("invalid hour");
    assert!(err.message().contains("invalid hour"));
}

#[test]
fn error_messages_of_hours() {
    assert_eq!(parse_weather_csv("h,t\n24,-4\n").unwrap_err().message(), "invalid hour 24 (expected 0-23)");
    assert_eq!(parse_weather_csv("h,t\n7,1\n7,2\n").unwrap_err().message(), "duplicate hour 7 in weather csv");
    assert_eq!(parse_weather_csv("h,t\n255,1\n").unwrap_err(), ImportError::InvalidHour { hour: 255 });
    assert_eq!(
        parse_weather_csv("h,t\n256,1\n").unwrap_err(),
        ImportError::InvalidNumber { column: Column::Hour, text: "256".to_string() }
    );
    assert_eq!(parse_weather_csv("h,t\n+5,1\n").unwrap()[0].hour, 5);
}

#[test]
fn non_finite_temperatures_are_rejected() {
    for t in ["inf", "-Infinity", "NaN", "1e309", "1.797693134862315808e308"] {
        let csv = format!("hour,t_ext_c\n3,{t}\n");
        let err = parse_weather_csv(&csv).unwrap_err();
        assert_eq!(err, ImportError::NonFiniteTemperature { hour: 3 });
        assert_eq!(err.message(), "non-finite t_ext_c at hour 3");
        assert!(!t_ext(t).is_finite());
    }
}

#[test]
fn finiteness_matches_f64_parsing() {
    let literals = [
        "1.7976931348623157e308",
        "1.7976931348623158e308",
        "1.797693134862315807937289714053034150799341327100378269361737789804449682927647509466490179775872070963302864166928879109465555478519404026306574886715058206819089020007083836762738548458177115317644757302700698553713669596228429148198608349364752927190741684443655510704342711559699508093042880177904174497791e308",
        "179769313486231580793728971405303415079934132710037826936173778980444968292764750946649017977587207096330286416692887910946555547851940402630657488671505820681908902000708383676273854845817711531764475730270069855571366959622842914819860834936475292719074168444365510704342711559699508093042880177904174497792",
        "0.0000001e315",
        "1e-400",
        "0e999999",
        "-0.5",
        ".5e2",
        "5.",
        "00000000000000000000001e308",
    ];
    for t in literals {
        let csv = format!("hour,t_ext_c\n1,{t}\n");
        let finite = t_ext(t).is_finite();
        match parse_weather_csv(&csv) {
            Ok(steps) => {
                assert!(finite, "{t} accepted but f64 reads it as non-finite");
                assert_eq!(steps[0].t_ext_c, t);
            }
            Err(e) => {
                assert!(!finite, "{t} refused but f64 reads it as finite");
                assert_eq!(e, ImportError::NonFiniteTemperature { hour: 1 });
            }
        }
    }
}

#[test]
fn missing_columns_fields_and_rows() {
    assert_eq!(parse_weather_csv("x,t\n1,2\n").unwrap_err(), ImportError::MissingColumn { column: Column::Hour });
    assert_eq!(parse_weather_csv("hour,x\n1,2\n").unwrap_err(), ImportError::MissingColumn { column: Column::TExt });
    assert_eq!(parse_weather_csv("hour,t\n1, \n").unwrap_err(), ImportError::MissingField { column: Column::TExt });
    assert_eq!(
        parse_weather_csv("hour,t\n1,warm\n").unwrap_err(),
        ImportError::InvalidNumber { column: Column::TExt, text: "warm".to_string() }
    );
    let err = parse_weather_csv("hour,t\n").unwrap_err();
    assert_eq!(err, ImportError::NoRows);
    assert_eq!(err.message(), "weather csv must contain at least one row");
}

#[test]
fn ragged_row_is_a_csv_error() {
    let err = parse_weather_csv("hour,t\n1,2,3\n").unwrap_err();
    assert!(matches!(err, ImportError::Csv { .. }));
}

#[test]
fn accepted_steps_are_well_formed() {
    let csv = "hour,t_ext_c\n5,1.5\n0,-3\n23,4e0\n";
    let weather = parse_weather_csv(csv).expect("parse");
    assert!(!weather.is_empty());
    for (i, w) in weather.iter().enumerate() {
        assert!(w.hour <= 23);
        assert!(t_ext(&w.t_ext_c).is_finite());
        for v in &weather[i + 1..] {
            assert_ne!(w.hour, v.hour);
        }
    }
    let hours: Vec<u8> = weather.iter().map(|w| w.hour).collect();
    assert_eq!(hours, vec![5, 0, 23]);
}
