use vstd::prelude::*;
use sgp4::{Constants, Elements, ElementsError, TleError};
use crate::naming::{decimal, push_decimal};
use crate::text::{double_quotes, replace_double_quotes, split_lines, text_lines, trim_str, trimmed};

verus! {

/// The CelesTrak satellite groups offered, as (group, description).
pub open spec fn group_table() -> Seq<(Seq<char>, Seq<char>)> {
    seq![
        ("stations"@, "Space stations (ISS, CSS, etc.)"@),
        ("active"@, "All active satellites"@),
        ("starlink"@, "Starlink constellation"@),
        ("gps-ops"@, "GPS operational satellites"@),
        ("weather"@, "Weather satellites"@),
        ("galileo"@, "Galileo navigation satellites"@),
        ("glonass-ops"@, "GLONASS operational satellites"@),
        ("beidou"@, "BeiDou navigation satellites"@),
        ("amateur"@, "Amateur radio satellites"@),
        ("cubesats"@, "CubeSats"@),
        ("geo"@, "Geostationary satellites"@),
        ("military"@, "Military satellites"@),
        ("science"@, "Science satellites"@),
        ("engineering"@, "Engineering satellites"@),
    ]
}

/// The small set of groups loaded for real-time tracking.
pub open spec fn realtime_group_table() -> Seq<Seq<char>> {
    seq!["stations"@, "gps-ops"@, "weather"@]
}

/// The larger set of groups.
pub open spec fn extended_group_table() -> Seq<Seq<char>> {
    seq!["stations"@, "gps-ops"@, "galileo"@, "glonass-ops"@, "weather"@, "amateur"@, "science"@]
}

/// Whether `g` names one of the offered groups.
pub open spec fn is_available_group(g: Seq<char>) -> bool {
    exists|j: int| 0 <= j < group_table().len() && (#[trigger] group_table()[j]).0 == g
}

/// The CelesTrak groups that can be fetched, each with a description.
pub fn available_groups() -> (r: Vec<(&'static str, &'static str)>)
    ensures
        r@.len() == group_table().len(),
        forall|i: int|
            0 <= i < r@.len() ==> (#[trigger] r@[i]).0@ == group_table()[i].0 && r@[i].1@
                == group_table()[i].1,
{
    vec![
        ("stations", "Space stations (ISS, CSS, etc.)"),
        ("active", "All active satellites"),
        ("starlink", "Starlink constellation"),
        ("gps-ops", "GPS operational satellites"),
        ("weather", "Weather satellites"),
        ("galileo", "Galileo navigation satellites"),
        ("glonass-ops", "GLONASS operational satellites"),
        ("beidou", "BeiDou navigation satellites"),
        ("amateur", "Amateur radio satellites"),
        ("cubesats", "CubeSats"),
        ("geo", "Geostationary satellites"),
        ("military", "Military satellites"),
        ("science", "Science satellites"),
        ("engineering", "Engineering satellites"),
    ]
}

/// The groups loaded for real-time tracking.
pub fn get_realtime_groups() -> (r: Vec<&'static str>)
    ensures
        r@.len() == realtime_group_table().len(),
        forall|i: int| 0 <= i < r@.len() ==> (#[trigger] r@[i])@ == realtime_group_table()[i],
{
    vec!["stations", "gps-ops", "weather"]
}

/// A larger selection of groups.
pub fn get_extended_groups() -> (r: Vec<&'static str>)
    ensures
        r@.len() == extended_group_table().len(),
        forall|i: int| 0 <= i < r@.len() ==> (#[trigger] r@[i])@ == extended_group_table()[i],
{
    vec!["stations", "gps-ops", "galileo", "glonass-ops", "weather", "amateur", "science"]
}

/// Every real-time group is one of the extended groups, and every extended
/// group is one of the offered groups.
pub proof fn lemma_group_selections_available()
    ensures
        forall|i: int|
            0 <= i < realtime_group_table().len() ==> extended_group_table().contains(
                #[trigger] realtime_group_table()[i],
            ),
        forall|i: int|
            0 <= i < extended_group_table().len() ==> is_available_group(
                #[trigger] extended_group_table()[i],
            ),
{
    let e = extended_group_table();
    let r = realtime_group_table();
    let t = group_table();
    assert(r[0] == e[0] && r[1] == e[1] && r[2] == e[4]);
    assert(t[0].0 == e[0]);
    assert(t[3].0 == e[1]);
    assert(t[5].0 == e[2]);
    assert(t[6].0 == e[3]);
    assert(t[4].0 == e[4]);
    assert(t[8].0 == e[5]);
    assert(t[12].0 == e[6]);
}

/// Directory in which downloaded TLE data is cached.
pub const DATASET_DIR: &'static str = "dataset";

/// Cache file of a group's TLE data: `dataset/<group>.txt`.
pub fn cache_file_path(group: &str) -> (path: String)
    ensures
        path@ == "dataset"@ + "/"@ + group@ + ".txt"@,
{
    let mut path = String::from_str(DATASET_DIR);
    path.append("/");
    path.append(group);
    path.append(".txt");
    path
}

/// CelesTrak address of a group's elements in TLE format.
pub fn group_url(group: &str) -> (url: String)
    ensures
        url@ == "https://celestrak.org/NORAD/elements/gp.php?GROUP="@ + group@ + "&FORMAT=tle"@,
{
    let mut url = String::from_str("https://celestrak.org/NORAD/elements/gp.php?GROUP=");
    url.append(group);
    url.append("&FORMAT=tle");
    url
}

/// Header line of a satellite CSV export.
pub const SATELLITE_CSV_HEADER: &'static str = "Name,NORAD_ID,Epoch,Inclination_deg,RAAN_deg,Eccentricity,ArgPerigee_deg,MeanAnomaly_deg,MeanMotion_revPerDay";

/// The fields after the name in a satellite CSV row: the orbital elements
/// are not kept with the constants, so each is written as unknown.
pub const UNKNOWN_ELEMENT_FIELDS: &'static str = ",Unknown,Unknown,Unknown,Unknown,Unknown,Unknown,Unknown,Unknown";

/// A satellite CSV row: the name quoted, with its double quotes doubled,
/// followed by unknown element fields.
pub fn satellite_csv_row(name: &str) -> (row: String)
    ensures
        row@ == "\""@ + double_quotes(name@) + "\""@ + UNKNOWN_ELEMENT_FIELDS@,
{
    let mut row = String::from_str("\"");
    let escaped = replace_double_quotes(name);
    row.append(escaped.as_str());
    row.append("\"");
    row.append(UNKNOWN_ELEMENT_FIELDS);
    row
}

/// `sgp4::Elements`, held opaquely.
#[verifier::external_type_specification]
#[verifier::external_body]
pub struct ExElements(sgp4::Elements);

/// `sgp4::TleError`, held opaquely.
#[verifier::external_type_specification]
#[verifier::external_body]
pub struct ExTleError(sgp4::TleError);

/// `sgp4::Constants`, held opaquely.
#[verifier::external_type_specification]
#[verifier::external_body]
pub struct ExConstants(sgp4::Constants);

/// `sgp4::ElementsError`, held opaquely.
#[verifier::external_type_specification]
#[verifier::external_body]
pub struct ExElementsError(sgp4::ElementsError);

/// What `sgp4::Elements::from_tle` gives for a name and the two element lines.
pub uninterp spec fn tle_elements(name: Seq<char>, line1: Seq<char>, line2: Seq<char>) -> Result<
    Elements,
    TleError,
>;

/// The `object_name` field of a set of elements.
pub uninterp spec fn elements_name(e: Elements) -> Option<Seq<char>>;

/// The `norad_id` field of a set of elements.
pub uninterp spec fn elements_norad_id(e: Elements) -> u64;

/// What `sgp4::Constants::from_elements` gives for a set of elements.
pub uninterp spec fn constants_from(e: Elements) -> Result<Constants, ElementsError>;

/// Whether an element line, given by its UTF-8 bytes, can be handed to the
/// SGP4 parser. A line whose length is not 69 bytes is refused by the parser
/// before it reads anything. A line of 69 bytes must end in a digit (the
/// parser subtracts `'0'` from the checksum byte) and be ASCII wherever the
/// parser converts byte ranges to text unchecked: everywhere, except in
/// columns 12 to 17 of the first line (bytes 11 to 16), the launch piece of
/// the international designator, which it converts with a check.
pub open spec fn parser_safe(bytes: Seq<u8>, first_line: bool) -> bool {
    bytes.len() == 69 ==> {
        &&& '0' as u8 <= bytes[68] && bytes[68] <= '9' as u8
        &&& forall|i: int|
            0 <= i < 69 && !(first_line && 11 <= i < 17) ==> #[trigger] bytes[i] < 128
    }
}

/// Calls `sgp4::Elements::from_tle` with `Some(name)` and the bytes of the two
/// lines. The source sets the object name of a successful parse to the name
/// given; what else the parse yields, and when it fails, is left to the name
/// `tle_elements`. Lines of 69 bytes that do not end in a digit, or that
/// hold non-ASCII bytes where the parser reads them unchecked, are not
/// admitted: on them the source may panic.
#[verifier::external_body]
fn elements_from_tle(name: &str, line1: &str, line2: &str) -> (r: Result<Elements, TleError>)
    requires
        parser_safe(vstd::utf8::encode_utf8(line1@), true),
        parser_safe(vstd::utf8::encode_utf8(line2@), false),
    ensures
        r == tle_elements(name@, line1@, line2@),
        r is Ok ==> elements_name(r->Ok_0) == Some(name@),
{
    Elements::from_tle(Some(name.to_string()), line1.as_bytes(), line2.as_bytes())
}

/// Reads the `object_name` field of `sgp4::Elements` (a clone of it).
#[verifier::external_body]
fn object_name_of(e: &Elements) -> (r: Option<String>)
    ensures
        r is Some <==> elements_name(*e) is Some,
        r is Some ==> r->0@ == elements_name(*e)->0,
{
    e.object_name.clone()
}

/// Reads the `norad_id` field of `sgp4::Elements`.
#[verifier::external_body]
fn norad_id_of(e: &Elements) -> (r: u64)
    ensures
        r == elements_norad_id(*e),
{
    e.norad_id
}

/// Calls `sgp4::Constants::from_elements`; its result is left to the name
/// `constants_from`.
#[verifier::external_body]
fn constants_from_elements(e: &Elements) -> (r: Result<Constants, ElementsError>)
    ensures
        r == constants_from(*e),
{
    Constants::from_elements(e)
}

/// Whether a line starts with the line number `digit` followed by a space, as
/// the first two characters of each element line do.
pub open spec fn has_line_number(line: Seq<char>, digit: char) -> bool {
    line.len() >= 2 && line[0] == digit && line[1] == ' '
}

/// Whether `line` can be handed to the SGP4 parser as the first
/// (`first_line`) or the second element line.
pub fn is_parser_safe(line: &str, first_line: bool) -> (b: bool)
    ensures
        b == parser_safe(vstd::utf8::encode_utf8(line@), first_line),
{
    let bytes = line.as_bytes();
    assert(bytes@ == vstd::utf8::encode_utf8(line@));
    if bytes.len() != 69 {
        return true;
    }
    let last = bytes[68];
    if !(48 <= last && last <= 57) {
        return false;
    }
    let mut i: usize = 0;
    while i < 69
        invariant
            i <= 69,
            bytes@.len() == 69,
            bytes@ == vstd::utf8::encode_utf8(line@),
            forall|j: int| 0 <= j < i && !(first_line && 11 <= j < 17) ==> #[trigger] bytes@[j] < 128,
        decreases 69 - i,
    {
        if !(first_line && 11 <= i && i < 17) && bytes[i] >= 128 {
            assert(!(bytes@[i as int] < 128));
            return false;
        }
        i += 1;
    }
    true
}

/// Whether `line` starts with `digit` and a space.
pub fn starts_with_line_number(line: &str, digit: char) -> (b: bool)
    ensures
        b == has_line_number(line@, digit),
{
    let n = line.unicode_len();
    if n < 2 {
        return false;
    }
    line.get_char(0) == digit && line.get_char(1) == ' '
}

/// The elements read from the lines of a TLE text: the lines are taken in
/// consecutive groups of three (name, line 1, line 2), each trimmed; a group
/// whose element lines start with `1 ` and `2 `, can be handed to the parser
/// and parse contributes its elements; other groups, and fewer than three
/// trailing lines, are skipped.
pub open spec fn tle_records(lines: Seq<Seq<char>>) -> Seq<Elements>
    decreases lines.len(),
{
    if lines.len() < 3 {
        Seq::empty()
    } else {
        let name = trimmed(lines[0]);
        let line1 = trimmed(lines[1]);
        let line2 = trimmed(lines[2]);
        let rest = tle_records(lines.subrange(3, lines.len() as int));
        if has_line_number(line1, '1') && has_line_number(line2, '2') && parser_safe(
            vstd::utf8::encode_utf8(line1),
            true,
        ) && parser_safe(vstd::utf8::encode_utf8(line2), false) && tle_elements(
            name,
            line1,
            line2,
        ) is Ok {
            seq![tle_elements(name, line1, line2)->Ok_0] + rest
        } else {
            rest
        }
    }
}

/// Reads SGP4 elements from the lines of a TLE text (a name line followed
/// by two element lines per satellite), skipping groups that do not parse.
pub fn parse_tle_lines(lines: &[&str]) -> (r: Vec<Elements>)
    ensures
        r@ == tle_records(lines@.map_values(|l: &str| l@)),
        forall|i: int| 0 <= i < r@.len() ==> (#[trigger] elements_name(r@[i])) is Some,
{
    let ghost all = lines@.map_values(|l: &str| l@);
    let mut elements_vec: Vec<Elements> = Vec::new();
    let mut i: usize = 0;
    assert(all.subrange(0, all.len() as int) =~= all);
    while i < lines.len() && lines.len() - i > 2
        invariant
            lines@.len() == all.len(),
            forall|k: int| 0 <= k < lines@.len() ==> (#[trigger] lines@[k])@ == all[k],
            i <= lines@.len(),
            elements_vec@ + tle_records(all.subrange(i as int, all.len() as int)) == tle_records(all),
            forall|k: int| 0 <= k < elements_vec@.len() ==> (#[trigger] elements_name(elements_vec@[k])) is Some,
        decreases lines.len() - i,
    {
        let ghost rest = all.subrange(i as int, all.len() as int);
        let name = trim_str(lines[i]);
        let line1 = trim_str(lines[i + 1]);
        let line2 = trim_str(lines[i + 2]);
        proof {
            assert(rest[0] == all[i as int]);
            assert(rest[1] == all[i + 1]);
            assert(rest[2] == all[i + 2]);
            assert(rest.subrange(3, rest.len() as int) =~= all.subrange(i + 3, all.len() as int));
        }
        if starts_with_line_number(line1, '1') && starts_with_line_number(line2, '2')
            && is_parser_safe(line1, true) && is_parser_safe(line2, false) {
            match elements_from_tle(name, line1, line2) {
                Ok(elements) => {
                    let ghost before = elements_vec@;
                    elements_vec.push(elements);
                    proof {
                        assert(elements_vec@ + tle_records(all.subrange(i + 3, all.len() as int))
                            =~= before + tle_records(rest));
                    }
                },
                Err(_) => {},
            }
        }
        i += 3;
    }
    proof {
        assert(all.subrange(i as int, all.len() as int).len() < 3);
        assert(elements_vec@ =~= elements_vec@ + Seq::<Elements>::empty());
    }
    elements_vec
}

/// Parses TLE text (a name line followed by two element lines per
/// satellite) into SGP4 elements, skipping groups that do not parse.
pub fn parse_tle_to_elements(tle_text: &str) -> (r: Vec<Elements>)
    ensures
        r@ == tle_records(text_lines(tle_text@)),
        forall|i: int| 0 <= i < r@.len() ==> (#[trigger] elements_name(r@[i])) is Some,
{
    let lines = split_lines(tle_text);
    assert(lines@.map_values(|l: &str| l@) =~= text_lines(tle_text@));
    parse_tle_lines(lines.as_slice())
}

/// The name under which a set of elements is listed: its object name, or
/// `SAT_` and its NORAD identifier when it has none.
pub open spec fn listing_name(e: Elements) -> Seq<char> {
    match elements_name(e) {
        Some(n) => n,
        None => "SAT_"@ + decimal(elements_norad_id(e) as nat),
    }
}

/// The (name, constants) entries for a sequence of elements, skipping those
/// from which no SGP4 constants can be made.
pub open spec fn constant_entries(es: Seq<Elements>) -> Seq<(Seq<char>, Constants)>
    decreases es.len(),
{
    if es.len() == 0 {
        Seq::empty()
    } else {
        let rest = constant_entries(es.drop_first());
        match constants_from(es[0]) {
            Ok(c) => seq![(listing_name(es[0]), c)] + rest,
            Err(_) => rest,
        }
    }
}

/// The name under which `e` is listed.
fn listing_name_of(e: &Elements) -> (name: String)
    ensures
        name@ == listing_name(*e),
{
    match object_name_of(e) {
        Some(n) => n,
        None => {
            let mut name = String::from_str("SAT_");
            push_decimal(&mut name, norad_id_of(e));
            name
        },
    }
}

/// Parses TLE text into named, precomputed SGP4 constants.
pub fn parse_tle_to_constants(tle_text: &str) -> (r: Vec<(String, Constants)>)
    ensures
        r@.len() == constant_entries(tle_records(text_lines(tle_text@))).len(),
        forall|i: int|
            0 <= i < r@.len() ==> (#[trigger] r@[i]).0@ == constant_entries(
                tle_records(text_lines(tle_text@)),
            )[i].0 && r@[i].1 == constant_entries(tle_records(text_lines(tle_text@)))[i].1,
{
    let elements = parse_tle_to_elements(tle_text);
    let ghost es = elements@;
    let mut constants_vec: Vec<(String, Constants)> = Vec::new();
    let mut k: usize = 0;
    assert(es.skip(0) =~= es);
    while k < elements.len()
        invariant
            es == elements@,
            k <= es.len(),
            constants_vec@.len() + constant_entries(es.skip(k as int)).len() == constant_entries(
                es,
            ).len(),
            forall|j: int|
                0 <= j < constants_vec@.len() ==> (#[trigger] constants_vec@[j]).0@
                    == constant_entries(es)[j].0 && constants_vec@[j].1 == constant_entries(es)[j].1,
            forall|j: int|
                0 <= j < constant_entries(es.skip(k as int)).len() ==> constant_entries(es)[j
                    + constants_vec@.len()] == #[trigger] constant_entries(es.skip(k as int))[j],
        decreases es.len() - k,
    {
        let ghost tail = es.skip(k as int);
        proof {
            assert(tail[0] == es[k as int]);
            assert(tail.drop_first() =~= es.skip(k + 1));
        }
        let name = listing_name_of(&elements[k]);
        match constants_from_elements(&elements[k]) {
            Ok(constants) => {
                proof {
                    let ce = constant_entries(tail);
                    assert(ce[0] == (listing_name(es[k as int]), constants));
                    assert forall|j: int|
                        0 <= j < constant_entries(es.skip(k + 1)).len() implies constant_entries(es)[j
                        + constants_vec@.len() + 1] == #[trigger] constant_entries(es.skip(k + 1))[j] by {
                        assert(ce[j + 1] == constant_entries(es.skip(k + 1))[j]);
                    }
                    assert(constant_entries(es)[constants_vec@.len() as int] == ce[0]);
                }
                constants_vec.push((name, constants));
            },
            Err(_) => {},
        }
        k += 1;
    }
    proof {
        assert(es.skip(k as int) =~= Seq::<Elements>::empty());
    }
    constants_vec
}

} // verus!
