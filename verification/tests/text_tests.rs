use leo_sim::celestrak::{satellite_csv_row, SATELLITE_CSV_HEADER};
use leo_sim::passive::closest_in_time;
use leo_sim::file_io::{object_type_named, resolve_columns};
use leo_sim::celestrak::{is_parser_safe, parse_tle_lines};
use leo_sim::celestrak::{
    available_groups, cache_file_path, get_extended_groups, get_realtime_groups, group_url,
    parse_tle_to_constants, parse_tle_to_elements,
};
use leo_sim::file_io::{parse_csv_header, parse_object_type};
use leo_sim::objects::ObjectType;
use leo_sim::sensor::station_name;
use leo_sim::state::{check_config, ConfigError, DataSource};
use leo_sim::text::split_fields;

const ISS: &str = "ISS (ZARYA)\n1 25544U 98067A   08264.51782528 -.00002182  00000-0 -11606-4 0  2927\n2 25544  51.6416 247.4627 0006703 130.5360 325.0288 15.72125391563537\n";

#[test]
fn group_lists() {
    let groups = available_groups();
    assert_eq!(groups.len(), 14);
    assert_eq!(groups[0], ("stations", "Space stations (ISS, CSS, etc.)"));
    assert_eq!(groups[13], ("engineering", "Engineering satellites"));
    assert_eq!(get_realtime_groups(), vec!["stations", "gps-ops", "weather"]);
    let extended = get_extended_groups();
    assert_eq!(extended.len(), 7);
    for g in get_realtime_groups() {
        assert!(extended.contains(&g));
    }
    for g in extended {
        assert!(groups.iter().any(|(name, _)| *name == g));
    }
}

#[test]
fn cache_path_and_url() {
    assert_eq!(cache_file_path("stations"), "dataset/stations.txt");
    assert_eq!(
        group_url("gps-ops"),
        "https://celestrak.org/NORAD/elements/gp.php?GROUP=gps-ops&FORMAT=tle"
    );
}

#[test]
fn parses_one_tle_record() {
    let elements = parse_tle_to_elements(ISS);
    assert_eq!(elements.len(), 1);
    assert_eq!(elements[0].object_name.as_deref(), Some("ISS (ZARYA)"));
    assert_eq!(elements[0].norad_id, 25544);
    let constants = parse_tle_to_constants(ISS);
    assert_eq!(constants.len(), 1);
    assert_eq!(constants[0].0, "ISS (ZARYA)");
}

#[test]
fn trims_names_and_skips_bad_groups() {
    let text = format!("  BAD\nX not a line\n2 nothing\n{}EXTRA\n1 partial", ISS.replace("ISS (ZARYA)", "  ISS (ZARYA)  "));
    let elements = parse_tle_to_elements(&text);
    assert_eq!(elements.len(), 1);
    assert_eq!(elements[0].object_name.as_deref(), Some("ISS (ZARYA)"));
    assert!(parse_tle_to_elements("").is_empty());
    assert!(parse_tle_to_elements("only\ntwo").is_empty());
}

#[test]
fn unparsable_element_lines_are_skipped() {
    let text = "SAT\n1 garbage\n2 garbage\n";
    assert!(parse_tle_to_elements(text).is_empty());
    assert!(parse_tle_to_constants(text).is_empty());
}

#[test]
fn station_names_are_zero_padded() {
    assert_eq!(station_name(3), "OBS_03");
    assert_eq!(station_name(17), "OBS_17");
    assert_eq!(station_name(123), "OBS_123");
}

#[test]
fn csv_header_layout() {
    let c = parse_csv_header("Name, X,y ,z,VX,vy,vz,type,x").unwrap();
    assert_eq!((c.name, c.x, c.y, c.z, c.vx, c.vy, c.vz), (0, 1, 2, 3, 4, 5, 6));
    assert_eq!(c.object_type, Some(7));
    assert_eq!(c.size_meters, None);
    assert_eq!(c.rcs, None);
    let c = parse_csv_header("rcs,vz,vy,vx,z,y,x,name,size_meters").unwrap();
    assert_eq!(c.name, 7);
    assert_eq!(c.rcs, Some(0));
    assert_eq!(c.size_meters, Some(8));
}

#[test]
fn csv_header_missing_column() {
    assert_eq!(
        parse_csv_header("name,x,y,z,vx,vy").unwrap_err(),
        "Missing required column: vz"
    );
    assert_eq!(parse_csv_header("").unwrap_err(), "Missing required column: name");
    assert_eq!(
        parse_csv_header("name,y,z").unwrap_err(),
        "Missing required column: x"
    );
}

#[test]
fn object_type_field() {
    assert_eq!(parse_object_type("Satellite"), Some(ObjectType::Satellite));
    assert_eq!(parse_object_type("DEBRIS"), Some(ObjectType::Debris));
    assert_eq!(parse_object_type("rock"), None);
}

#[test]
fn fields_are_split_and_trimmed() {
    assert_eq!(split_fields(" a , b,,c "), vec!["a", "b", "", "c"]);
    assert_eq!(split_fields(""), vec![""]);
}

#[test]
fn data_source_defaults_to_generate() {
    assert_eq!(DataSource::default(), DataSource::Generate);
}

#[test]
fn satellite_rows_quote_names() {
    assert_eq!(
        satellite_csv_row("ISS (ZARYA)"),
        "\"ISS (ZARYA)\",Unknown,Unknown,Unknown,Unknown,Unknown,Unknown,Unknown,Unknown"
    );
    assert_eq!(
        satellite_csv_row("A \"B\""),
        "\"A \"\"B\"\"\",Unknown,Unknown,Unknown,Unknown,Unknown,Unknown,Unknown,Unknown"
    );
    assert!(SATELLITE_CSV_HEADER.starts_with("Name,NORAD_ID,"));
}

#[test]
fn closest_observation_in_time() {
    assert_eq!(closest_in_time(&[], 5), None);
    assert_eq!(closest_in_time(&[100, 40, 60, 40], 50), Some(1));
    assert_eq!(closest_in_time(&[100, 0, 200], 150), Some(0));
    assert_eq!(closest_in_time(&[7], u64::MAX), Some(0));
}

#[test]
fn resolve_lower_case_columns() {
    let names: Vec<String> = ["vz", "vy", "vx", "z", "y", "x", "name", "name", "type"]
        .iter()
        .map(|s| s.to_string())
        .collect();
    let c = resolve_columns(&names).unwrap();
    assert_eq!((c.vz, c.vy, c.vx, c.z, c.y, c.x, c.name), (0, 1, 2, 3, 4, 5, 6));
    assert_eq!(c.object_type, Some(8));
    let upper: Vec<String> = ["Name", "x", "y", "z", "vx", "vy", "vz"].iter().map(|s| s.to_string()).collect();
    assert_eq!(resolve_columns(&upper).unwrap_err(), "Missing required column: name");
    assert_eq!(object_type_named(&"debris".to_string()), Some(ObjectType::Debris));
    assert_eq!(object_type_named(&"Debris".to_string()), None);
}

#[test]
fn tle_lines_are_grouped_in_threes() {
    let lines: Vec<&str> = ISS.lines().collect();
    let mut shifted = vec!["stray line"];
    shifted.extend(lines.iter().copied());
    assert_eq!(parse_tle_lines(&lines).len(), 1);
    // one leading line shifts every group: no group starts with a name line any more
    assert_eq!(parse_tle_lines(&shifted).len(), 0);
    let mut twice = lines.clone();
    twice.extend(lines.iter().copied());
    assert_eq!(parse_tle_lines(&twice).len(), 2);
}

#[test]
fn config_checks_report_first_failure() {
    let gen = DataSource::Generate;
    let csv = DataSource::ImportCSV;
    assert_eq!(check_config(300, 24, true, 10, true, gen, false), Ok(()));
    assert_eq!(check_config(0, 24, true, 10, true, gen, false), Err(ConfigError::ObjectCount(0)));
    assert_eq!(
        check_config(100_001, 0, false, 0, false, csv, false),
        Err(ConfigError::ObjectCount(100_001))
    );
    assert_eq!(check_config(300, 101, true, 10, true, gen, false), Err(ConfigError::SensorCount(101)));
    assert_eq!(check_config(300, 0, true, 10, true, gen, false), Err(ConfigError::SensorCount(0)));
    assert_eq!(check_config(300, 24, false, 0, true, gen, false), Err(ConfigError::TimeStep));
    assert_eq!(check_config(300, 24, true, 0, true, gen, false), Err(ConfigError::Steps(0)));
    assert_eq!(check_config(300, 24, true, 10_001, true, gen, false), Err(ConfigError::Steps(10_001)));
    assert_eq!(check_config(300, 24, true, 10_000, true, gen, false), Ok(()));
    assert_eq!(
        check_config(10, 24, true, 10, false, gen, false),
        Err(ConfigError::SensorsExceedObjects(24, 10))
    );
    assert_eq!(check_config(300, 24, true, 10, false, csv, false), Err(ConfigError::CollisionThreshold));
    assert_eq!(check_config(300, 24, true, 10, true, csv, false), Err(ConfigError::MissingCsvPath));
    assert_eq!(check_config(300, 24, true, 10, true, csv, true), Ok(()));
    assert_eq!(check_config(100_000, 100, true, 1, true, gen, false), Ok(()));
}

#[test]
fn lines_the_parser_cannot_take_are_skipped() {
    // a full-length first line whose checksum position is not a digit
    let bad_checksum = ISS.replace("0  2927\n", "0  292.\n");
    assert!(parse_tle_to_elements(&bad_checksum).is_empty());
    let minus_checksum = ISS.replace("0  2927\n", "0  292-\n");
    assert!(parse_tle_to_constants(&minus_checksum).is_empty());
    // a non-ASCII byte in a numeric field of a full-length line
    let non_ascii_field = ISS.replace("08264.51782528", "08264.517825é");
    assert!(parse_tle_to_elements(&non_ascii_field).is_empty());
    // a line that grows past 69 bytes is refused by the parser itself
    let too_long = ISS.replace("98067A  ", "98067Aé ");
    assert!(parse_tle_to_elements(&too_long).is_empty());
    // a non-ASCII name is kept
    let named = ISS.replace("ISS (ZARYA)", "ISS (ZARYA) é");
    assert_eq!(parse_tle_to_elements(&named).len(), 1);
    assert!(is_parser_safe("1 25544U", true));
    assert!(is_parser_safe("é", true));
}

#[test]
fn non_ascii_launch_piece_is_parsed() {
    // the launch piece of the designator (bytes 11 to 16 of line 1) is read
    // with a checked conversion, so a non-ASCII character there parses
    let text = ISS.replace("98067A  ", "98067é ");
    let line1 = text.lines().nth(1).unwrap();
    assert_eq!(line1.len(), 69);
    assert!(is_parser_safe(line1, true));
    assert!(!is_parser_safe(line1, false));
    let elements = parse_tle_to_elements(&text);
    assert_eq!(elements.len(), 1);
    assert_eq!(elements[0].norad_id, 25544);
}

#[test]
fn crlf_tle_text_parses() {
    let crlf = ISS.replace('\n', "\r\n");
    assert_eq!(parse_tle_to_elements(&crlf).len(), 1);
    let no_final_newline = ISS.trim_end_matches('\n');
    assert_eq!(parse_tle_to_elements(no_final_newline).len(), 1);
    assert_eq!(parse_csv_header(" Name , X,y,z,VX,vy,vz ").map(|c| c.vz), Ok(6));
}
