use arrayvec::CapacityError;
use onebrc_rs::arraystring128::ArrayString128;
use onebrc_rs::arraystring128::MAX_STRING_LEN;
use onebrc_rs::record::Skipped;
use onebrc_rs::station_measurements::CityTemperatureStats;
use onebrc_rs::station_measurements::StationMeasurements;
use onebrc_rs::station_measurements::TemperatureStats;
use std::str::FromStr;

fn read(text: &str) -> StationMeasurements {
    let mut measurements = StationMeasurements::new();
    measurements.read_lines(text);
    measurements
}

fn name(text: &str) -> ArrayString128 {
    ArrayString128::from_str(text).unwrap()
}

#[test]
fn given_file_when_line_starts_with_hash_then_ignore() {
    // Arrange
    let text = "# Adapted from a list of world cities\n# Licensed under an open licence\n#Hamburg;12.0\n";
    let mut measurements = StationMeasurements::new();

    // Act
    measurements.read_lines(text);

    // Assert
    assert!(measurements.is_empty());
}

#[test]
fn given_file_with_ten_measurements_when_read_lines_then_length_is_10() {
    // Arrange
    let text = "Tokyo;35.6897\nJakarta;-6.1750\nDelhi;28.6100\nGuangzhou;23.1300\nMumbai;19.0761\n\
                Manila;14.5958\nShanghai;31.1667\nSao Paulo;-23.5500\nSeoul;37.5600\nMexico City;19.4333\n";
    let mut measurements = StationMeasurements::new();

    // Act
    measurements.read_lines(text);

    // Assert
    assert_eq!(measurements.len(), 10, "There should be 10 measurements");
}

#[test]
fn given_file_with_measurements_when_get_city_then_return_statistics() {
    // Arrange
    let text = "Hamburg;12.0\nHamburg;33.7\nHamburg;42.55\n";
    let mut measurements = StationMeasurements::new();
    measurements.read_lines(text);

    // Act
    let stats = measurements.get_stat(&ArrayString128::from_str("Hamburg").unwrap()).unwrap();

    // Assert
    assert_eq!("12.00/29.42/42.55", stats.to_string(),);
}

#[test]
fn given_file_with_measurements_when_get_all_stats_then_return_all_statistics() {
    // Arrange
    let text = "Hamburg;12.0\nHamburg;33.7\nHamburg;42.55\n";
    let mut measurements = StationMeasurements::new();
    measurements.read_lines(text);

    // Act
    let stats = measurements.get_all_stats();
    println!("stats: {}", stats.to_string());

    // Assert
    assert_eq!(1, stats.len(), "one record in statistics list");
    assert_eq!("{Hamburg=12.00/29.42/42.55}", stats.to_string(),);
}

#[test]
#[allow(non_snake_case)]
fn given_CityTemperatureStats_then_is_empty() {
    // Act
    let agg = CityTemperatureStats::new();

    // Assert
    assert!(agg.is_empty());
}

#[test]
fn three_readings_of_one_station() {
    let measurements = read("Hamburg;12.0\nHamburg;42.55\nHamburg;33.3\n");
    assert_eq!(measurements.len(), 1);
    assert_eq!(measurements.readings(), 3);
    let stats = measurements.get_stat(&name("Hamburg")).unwrap();
    assert_eq!(stats.min(), 120_000);
    assert_eq!(stats.max(), 425_500);
    assert_eq!(stats.sum(), 878_500);
    assert_eq!(stats.count(), 3);
    assert_eq!(stats.to_string(), "12.00/29.28/42.55");
    assert_eq!(measurements.get_all_stats().to_string(), "{Hamburg=12.00/29.28/42.55}");
}

#[test]
fn malformed_line_between_readings_is_skipped() {
    let measurements = read("Hamburg;12.0\nnot-a-number-line-without-delimiter\nHamburg;42.0\n");
    assert_eq!(measurements.len(), 1);
    assert_eq!(measurements.readings(), 2);
    let stats = measurements.get_stat(&name("Hamburg")).unwrap();
    assert_eq!(stats.min(), 120_000);
    assert_eq!(stats.max(), 420_000);
    assert_eq!(stats.to_string(), "12.00/27.00/42.00");
    assert_eq!(stats, read("Hamburg;12.0\nHamburg;42.0\n").get_stat(&name("Hamburg")).unwrap());
}

#[test]
fn two_stations_are_reported_in_order_of_names() {
    let measurements = read("Berlin;10.0\nAachen;5.0\n");
    assert_eq!(measurements.len(), 2);
    assert_eq!(
        measurements.get_all_stats().to_string(),
        "{Aachen=5.00/5.00/5.00, Berlin=10.00/10.00/10.00}"
    );
}

#[test]
fn empty_table_is_reported_as_braces() {
    let measurements = StationMeasurements::new();
    assert!(measurements.is_empty());
    assert_eq!(measurements.len(), 0);
    assert_eq!(measurements.readings(), 0);
    assert_eq!(measurements.get_all_stats().to_string(), "{}");
    assert_eq!(CityTemperatureStats::new().to_string(), "{}");
    assert_eq!(CityTemperatureStats::new().len(), 0);
    assert!(read("").is_empty());
}

#[test]
fn unknown_station_has_no_statistics() {
    let measurements = read("Hamburg;12.0\n");
    assert!(measurements.get_stat(&name("Bremen")).is_none());
    assert!(measurements.get_stat(&name("")).is_none());
    assert!(measurements.get_stat(&name("Hamburg ")).is_none());
    assert!(StationMeasurements::new().get_stat(&name("Hamburg")).is_none());
}

#[test]
fn observe_keeps_least_greatest_sum_and_count() {
    let mut measurements = StationMeasurements::new();
    let values: [i64; 5] = [30_000, -125_000, 997_000, 0, -125_000];
    for v in values {
        measurements.observe(name("Oslo"), v);
    }
    let stats = measurements.get_stat(&name("Oslo")).unwrap();
    assert_eq!(stats.min(), -125_000);
    assert_eq!(stats.max(), 997_000);
    assert_eq!(stats.sum(), 777_000);
    assert_eq!(stats.count(), 5);
    assert_eq!(stats.to_string(), "-12.50/15.54/99.70");
}

#[test]
fn order_of_arrival_does_not_matter() {
    let forward = read("a;1.5\nb;2.5\na;-3\nc;0.25\nb;7\na;1.5\n");
    let backward = read("a;1.5\nb;7\nc;0.25\na;-3\nb;2.5\na;1.5\n");
    assert_eq!(forward.get_all_stats().to_string(), backward.get_all_stats().to_string());
    for key in ["a", "b", "c"] {
        assert_eq!(forward.get_stat(&name(key)), backward.get_stat(&name(key)));
    }
    assert_eq!(forward.get_stat(&name("a")).unwrap().sum(), 0);
    assert_eq!(forward.get_stat(&name("a")).unwrap().count(), 3);
}

#[test]
fn number_of_stations_is_number_of_distinct_names() {
    let measurements = read("x;1\ny;2\nx;3\nz;oops\ny;4\n;5\n");
    assert_eq!(measurements.len(), 3);
    assert!(measurements.get_stat(&name("z")).is_none());
    assert_eq!(measurements.get_stat(&name("")).unwrap().count(), 1);
    assert_eq!(measurements.readings(), 5);
}

#[test]
fn report_is_sorted_by_bytes_whatever_the_order_of_arrival() {
    let measurements = read("b;1\nab;1\nB;1\na;1\n\u{e9};1\nz;1\n;1\naa;1\n");
    assert_eq!(
        measurements.get_all_stats().to_string(),
        "{=1.00/1.00/1.00, B=1.00/1.00/1.00, a=1.00/1.00/1.00, aa=1.00/1.00/1.00, \
         ab=1.00/1.00/1.00, b=1.00/1.00/1.00, z=1.00/1.00/1.00, \u{e9}=1.00/1.00/1.00}"
    );
}

#[test]
fn rendering_twice_gives_the_same_text() {
    let measurements = read("Berlin;10.0\nAachen;5.0\nBerlin;-0.5\n");
    let report = measurements.get_all_stats();
    assert_eq!(report.to_string(), report.to_string());
    assert_eq!(report.to_string(), measurements.get_all_stats().to_string());
    let stats = measurements.get_stat(&name("Berlin")).unwrap();
    assert_eq!(stats.to_string(), stats.to_string());
}

#[test]
fn skipped_lines_leave_the_table_unchanged() {
    let long_name = "n".repeat(MAX_STRING_LEN + 1);
    let lines = [
        ("no delimiter here", Skipped::MissingDelimiter),
        ("", Skipped::MissingDelimiter),
        ("\n", Skipped::MissingDelimiter),
        ("Hamburg;warm", Skipped::UnparsableValue),
        ("Hamburg;", Skipped::UnparsableValue),
        ("Hamburg;1;2", Skipped::UnparsableValue),
        ("Hamburg;NaN", Skipped::UnparsableValue),
        ("# a comment; 1.0", Skipped::Comment),
        ("#Hamburg;1.0", Skipped::Comment),
    ];
    let mut measurements = read("Hamburg;12.0\nBremen;3\n");
    let before = measurements.get_all_stats().to_string();
    for (line, reason) in lines {
        assert_eq!(measurements.observe_line(line), Err(reason));
        assert_eq!(measurements.len(), 2);
        assert_eq!(measurements.readings(), 2);
        assert_eq!(measurements.get_all_stats().to_string(), before);
    }
    let oversized = format!("{};1.0", long_name);
    assert_eq!(measurements.observe_line(&oversized), Err(Skipped::OversizedKey));
    let oversized_and_unparsable = format!("{};x", long_name);
    assert_eq!(measurements.observe_line(&oversized_and_unparsable), Err(Skipped::OversizedKey));
    assert_eq!(measurements.get_all_stats().to_string(), before);
    assert_eq!(measurements.readings(), 2);
}

#[test]
fn name_of_greatest_length_is_kept_whole() {
    let longest = "n".repeat(MAX_STRING_LEN);
    let mut measurements = StationMeasurements::new();
    assert_eq!(measurements.observe_line(&format!("{};1.0", longest)), Ok(()));
    let key = name(&longest);
    assert_eq!(key.len(), MAX_STRING_LEN);
    assert_eq!(key.as_str(), longest);
    assert_eq!(measurements.get_stat(&key).unwrap().count(), 1);
    assert_eq!(ArrayString128::from_str(&"n".repeat(MAX_STRING_LEN + 1)), Err(CapacityError::new(())));
    let wide = "\u{e9}".repeat(64);
    assert_eq!(name(&wide).len(), 128);
    assert_eq!(ArrayString128::from_str(&format!("{}a", wide)), Err(CapacityError::new(())));
}

#[test]
fn name_is_not_trimmed_but_reading_is() {
    let measurements = read(" Kiel ;\t 4.5 \r\nKiel;1\n");
    assert_eq!(measurements.len(), 2);
    assert_eq!(measurements.get_stat(&name(" Kiel ")).unwrap().min(), 45_000);
    assert_eq!(measurements.get_stat(&name("Kiel")).unwrap().min(), 10_000);
    let wide = read("Kiel;\u{a0}\u{2003}4.5\u{3000}\u{85}\n");
    assert_eq!(wide.get_stat(&name("Kiel")).unwrap().min(), 45_000);
}

#[test]
fn last_line_needs_no_newline() {
    let measurements = read("Kiel;4.5\nKiel;5.5");
    assert_eq!(measurements.get_stat(&name("Kiel")).unwrap().count(), 2);
    assert_eq!(read("Kiel;4.5").len(), 1);
    assert_eq!(read("\n\n\n").len(), 0);
}

#[test]
fn mean_is_rounded_to_nearest_hundredth_ties_to_even() {
    let mut stats = TemperatureStats::new(100);
    stats = stats.with(200);
    // mean 0.015 is a tie: the even neighbour is 0.02
    assert_eq!(stats.to_string(), "0.01/0.02/0.02");
    let stats = TemperatureStats::new(200).with(300);
    // mean 0.025 is a tie: the even neighbour is 0.02
    assert_eq!(stats.to_string(), "0.02/0.02/0.03");
    let stats = TemperatureStats::new(-200).with(-300);
    // mean -0.025 is a tie: the even neighbour is -0.02
    assert_eq!(stats.to_string(), "-0.03/-0.02/-0.02");
    let stats = TemperatureStats::new(1).with(1).with(2);
    // mean 0.00013...
    assert_eq!(stats.to_string(), "0.00/0.00/0.00");
    let stats = TemperatureStats::new(-40).with(-40);
    // -0.004 rounds to zero and keeps its sign
    assert_eq!(stats.to_string(), "-0.00/-0.00/-0.00");
    let stats = TemperatureStats::new(0).with(0);
    assert_eq!(stats.to_string(), "0.00/0.00/0.00");
    let stats = TemperatureStats::new(49).with(51);
    // 0.0049 rounds down, 0.0050 is a tie to 0.00, 0.0051 rounds up
    assert_eq!(stats.to_string(), "0.00/0.00/0.01");
    let stats = TemperatureStats::new(150);
    // 0.0150 is a tie: the even neighbour is 0.02
    assert_eq!(stats.to_string(), "0.02/0.02/0.02");
    let stats = TemperatureStats::new(-1_234_567);
    assert_eq!(stats.to_string(), "-123.46/-123.46/-123.46");
}

#[test]
fn statistics_of_extreme_readings() {
    let stats = TemperatureStats::new(i64::MAX).with(i64::MIN);
    assert_eq!(stats.min(), i64::MIN);
    assert_eq!(stats.max(), i64::MAX);
    assert_eq!(stats.sum(), -1);
    assert_eq!(stats.count(), 2);
    // the mean is -0.00005 by two
    assert_eq!(stats.to_string(), "-922337203685477.58/-0.00/922337203685477.58");
}

#[test]
fn name_is_ordered_and_compared_by_its_bytes() {
    assert!(name("Aachen").precedes(&name("Berlin")));
    assert!(!name("Berlin").precedes(&name("Aachen")));
    assert!(!name("Berlin").precedes(&name("Berlin")));
    assert!(name("Berlin").precedes(&name("Berlin ")));
    assert!(name("").precedes(&name("a")));
    assert!(name("Z").precedes(&name("a")));
    assert!(name("z").precedes(&name("\u{e9}")));
    assert!(name("Kiel").same_as(&name("Kiel")));
    assert!(!name("Kiel").same_as(&name("Kiel ")));
    assert!(!name("Kiel").same_as(&name("kiel")));
    assert!(name("").same_as(&name("")));
    assert!(name("Aachen") < name("Berlin"));
    assert_eq!(name("Kiel"), name("Kiel"));
    assert_eq!(name("Kiel").to_string(), "Kiel");
    assert_eq!(name("Kiel").as_bytes(), b"Kiel");
}

#[test]
fn negative_value_that_rounds_to_zero_keeps_its_sign() {
    assert_eq!(read("x;-0.004\n").get_all_stats().to_string(), "{x=-0.00/-0.00/-0.00}");
    assert_eq!(read("x;-0.00001\n").get_all_stats().to_string(), "{x=-0.00/-0.00/-0.00}");
    assert_eq!(read("x;-0.0\n").get_all_stats().to_string(), "{x=0.00/0.00/0.00}");
    assert_eq!(read("x;0.004\n").get_all_stats().to_string(), "{x=0.00/0.00/0.00}");
    let mut text = String::from("x;-0.1\n");
    for _ in 0..29 {
        text.push_str("x;0\n");
    }
    // the mean is -0.1 by thirty
    assert_eq!(read(&text).get_all_stats().to_string(), "{x=-0.10/-0.00/0.00}");
    assert_eq!(read("x;-0.006\n").get_all_stats().to_string(), "{x=-0.01/-0.01/-0.01}");
}

#[test]
fn reading_just_beyond_a_tie_is_rounded_away_from_it() {
    assert_eq!(read("x;0.0050001\n").get_all_stats().to_string(), "{x=0.01/0.01/0.01}");
    assert_eq!(read("x;0.005\n").get_all_stats().to_string(), "{x=0.00/0.00/0.00}");
    assert_eq!(read("x;0.0149999\n").get_all_stats().to_string(), "{x=0.01/0.01/0.01}");
    assert_eq!(read("x;0.015\n").get_all_stats().to_string(), "{x=0.02/0.02/0.02}");
    assert_eq!(read("x;-0.0250001\n").get_all_stats().to_string(), "{x=-0.03/-0.03/-0.03}");
    assert_eq!(read("x;-0.025\n").get_all_stats().to_string(), "{x=-0.02/-0.02/-0.02}");
    assert_eq!(read("x;12.344999999\n").get_all_stats().to_string(), "{x=12.34/12.34/12.34}");
}
