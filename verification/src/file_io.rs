use vstd::prelude::*;
use crate::objects::ObjectType;
use crate::text::{
    ascii_lower, csv_fields, is_white_space, lowercased, split_commas, split_fields, split_on,
    to_lower, trim_end, trim_start, trimmed,
};

verus! {

/// The columns a catalog CSV file must have, in the order they are checked.
pub open spec fn required_columns() -> Seq<Seq<char>> {
    seq!["name"@, "x"@, "y"@, "z"@, "vx"@, "vy"@, "vz"@]
}

/// The column names of a header line: its comma-separated fields, trimmed
/// and lower-cased.
pub open spec fn header_names(header: Seq<char>) -> Seq<Seq<char>> {
    csv_fields(header).map_values(|h: Seq<char>| lowercased(h))
}

/// Position of the first occurrence of `col` among `names`.
pub open spec fn first_position(names: Seq<Seq<char>>, col: Seq<char>) -> Option<int>
    decreases names.len(),
{
    if names.len() == 0 {
        None
    } else {
        match first_position(names.drop_last(), col) {
            Some(i) => Some(i),
            None => if names.last() == col {
                Some(names.len() - 1)
            } else {
                None
            },
        }
    }
}

/// The first required column, from the `k`-th on, that `names` lacks.
pub open spec fn first_missing(names: Seq<Seq<char>>, k: int) -> Option<Seq<char>>
    decreases required_columns().len() - k,
{
    if k < 0 || k >= required_columns().len() {
        None
    } else if first_position(names, required_columns()[k]) is None {
        Some(required_columns()[k])
    } else {
        first_missing(names, k + 1)
    }
}

/// Where each field of a catalog row is found.
#[derive(Debug, Clone, Copy, PartialEq, Eq, Structural)]
pub struct CsvColumns {
    pub name: usize,
    pub x: usize,
    pub y: usize,
    pub z: usize,
    pub vx: usize,
    pub vy: usize,
    pub vz: usize,
    pub object_type: Option<usize>,
    pub size_meters: Option<usize>,
    pub rcs: Option<usize>,
}

/// The position of column `col`, as an index.
pub open spec fn position_index(names: Seq<Seq<char>>, col: Seq<char>) -> Option<usize> {
    match first_position(names, col) {
        Some(i) => Some(i as usize),
        None => None,
    }
}

/// The column layout that a header with column names `names` yields.
pub open spec fn layout_of(names: Seq<Seq<char>>) -> CsvColumns {
    CsvColumns {
        name: position_index(names, "name"@)->0,
        x: position_index(names, "x"@)->0,
        y: position_index(names, "y"@)->0,
        z: position_index(names, "z"@)->0,
        vx: position_index(names, "vx"@)->0,
        vy: position_index(names, "vy"@)->0,
        vz: position_index(names, "vz"@)->0,
        object_type: position_index(names, "type"@),
        size_meters: position_index(names, "size_meters"@),
        rcs: position_index(names, "rcs"@),
    }
}

proof fn lemma_first_position_bounds(names: Seq<Seq<char>>, col: Seq<char>)
    ensures
        first_position(names, col) matches Some(i) ==> 0 <= i < names.len() && names[i] == col,
        first_position(names, col) is None <==> !names.contains(col),
    decreases names.len(),
{
    if names.len() > 0 {
        let pre = names.drop_last();
        lemma_first_position_bounds(pre, col);
        if first_position(pre, col) is Some {
            let i = first_position(pre, col)->0;
            assert(names[i] == pre[i]);
        }
        if names.contains(col) {
            let k = choose|k: int| 0 <= k < names.len() && names[k] == col;
            if k < pre.len() {
                assert(pre[k] == col);
            }
        }
        if pre.contains(col) {
            let k = choose|k: int| 0 <= k < pre.len() && pre[k] == col;
            assert(names[k] == col);
        }
    }
}

/// Position of the first of `names` equal to `col`.
fn position_of(names: &[String], col: &str) -> (r: Option<usize>)
    ensures
        r == position_index(names@.map_values(|s: String| s@), col@),
{
    let ghost ns = names@.map_values(|s: String| s@);
    let target = String::from_str(col);
    let mut i: usize = 0;
    while i < names.len()
        invariant
            ns == names@.map_values(|s: String| s@),
            target@ == col@,
            i <= names@.len(),
            first_position(ns.take(i as int), col@) is None,
        decreases names.len() - i,
    {
        proof {
            assert(ns.take(i + 1).drop_last() =~= ns.take(i as int));
        }
        if names[i] == target {
            proof {
                assert(ns.take(i + 1).last() == col@);
                lemma_first_position_prefix(ns, col@, i + 1);
            }
            return Some(i);
        }
        i += 1;
    }
    proof {
        assert(ns.take(i as int) =~= ns);
    }
    None
}

proof fn lemma_first_position_prefix(names: Seq<Seq<char>>, col: Seq<char>, k: int)
    requires
        0 <= k <= names.len(),
        first_position(names.take(k), col) is Some,
    ensures
        first_position(names, col) == first_position(names.take(k), col),
    decreases names.len() - k,
{
    if k < names.len() {
        assert(names.take(k + 1).drop_last() =~= names.take(k));
        assert(first_position(names.take(k + 1), col) == first_position(names.take(k), col));
        lemma_first_position_prefix(names, col, k + 1);
    } else {
        assert(names.take(k) =~= names);
    }
}

/// The column layout for lower-case column names `names`: every required
/// column (`name`, `x`, `y`, `z`, `vx`, `vy`, `vz`) must be present, else
/// the error names the first one missing; each column is found at its
/// first occurrence; `type`, `size_meters` and `rcs` are optional.
pub fn resolve_columns(names: &[String]) -> (r: Result<CsvColumns, String>)
    ensures
        match first_missing(names@.map_values(|s: String| s@), 0) {
            Some(col) => r is Err && r->Err_0@ == "Missing required column: "@ + col,
            None => r == Ok::<CsvColumns, String>(layout_of(names@.map_values(|s: String| s@))),
        },
{
    let ghost hn = names@.map_values(|s: String| s@);
    let required = vec!["name", "x", "y", "z", "vx", "vy", "vz"];
    assert(required@.map_values(|s: &str| s@) =~= required_columns());
    let mut k: usize = 0;
    while k < required.len()
        invariant
            k <= required@.len(),
            required@.map_values(|s: &str| s@) == required_columns(),
            hn == names@.map_values(|s: String| s@),
            first_missing(hn, 0) == first_missing(hn, k as int),
            forall|j: int| 0 <= j < k ==> first_position(hn, #[trigger] required_columns()[j]) is Some,
        decreases required.len() - k,
    {
        assert(required@[k as int]@ == required_columns()[k as int]);
        let pos = position_of(names, required[k]);
        if pos.is_none() {
            assert(first_position(hn, required_columns()[k as int]) is None);
            assert(first_missing(hn, k as int) == Some(required_columns()[k as int]));
            let mut msg = String::from_str("Missing required column: ");
            msg.append(required[k]);
            return Err(msg);
        }
        assert(first_missing(hn, k as int) == first_missing(hn, k + 1));
        k += 1;
    }
    let name = position_of(names, "name");
    let x = position_of(names, "x");
    let y = position_of(names, "y");
    let z = position_of(names, "z");
    let vx = position_of(names, "vx");
    let vy = position_of(names, "vy");
    let vz = position_of(names, "vz");
    proof {
        assert(first_position(hn, required_columns()[0]) is Some);
        assert(first_position(hn, required_columns()[1]) is Some);
        assert(first_position(hn, required_columns()[2]) is Some);
        assert(first_position(hn, required_columns()[3]) is Some);
        assert(first_position(hn, required_columns()[4]) is Some);
        assert(first_position(hn, required_columns()[5]) is Some);
        assert(first_position(hn, required_columns()[6]) is Some);
    }
    let columns = CsvColumns {
        name: name.unwrap(),
        x: x.unwrap(),
        y: y.unwrap(),
        z: z.unwrap(),
        vx: vx.unwrap(),
        vy: vy.unwrap(),
        vz: vz.unwrap(),
        object_type: position_of(names, "type"),
        size_meters: position_of(names, "size_meters"),
        rcs: position_of(names, "rcs"),
    };
    Ok(columns)
}

/// The column names of an ASCII header line: its comma-separated fields,
/// trimmed and in ASCII lower case.
pub open spec fn ascii_header_names(header: Seq<char>) -> Seq<Seq<char>> {
    csv_fields(header).map_values(|h: Seq<char>| ascii_lower(h))
}

proof fn lemma_split_on_ascii(s: Seq<char>, sep: char)
    requires
        vstd::utf8::is_ascii_chars(s),
    ensures
        forall|k: int|
            0 <= k < split_on(s, sep).len() ==> vstd::utf8::is_ascii_chars(
                #[trigger] split_on(s, sep)[k],
            ),
        split_on(s, sep).len() >= 1,
    decreases s.len(),
{
    if s.len() > 0 {
        let pre = s.drop_last();
        assert(vstd::utf8::is_ascii_chars(pre)) by {
            assert forall|i: int| 0 <= i < pre.len() implies '\0' <= #[trigger] pre[i] <= '\u{7f}' by {
                assert(pre[i] == s[i]);
            }
        }
        lemma_split_on_ascii(pre, sep);
        let p = split_on(pre, sep);
        if s.last() != sep {
            let q = p.update(p.len() - 1, p.last().push(s.last()));
            assert forall|k: int| 0 <= k < q.len() implies vstd::utf8::is_ascii_chars(#[trigger] q[k]) by {
                if k == p.len() - 1 {
                    assert(vstd::utf8::is_ascii_chars(p[k]));
                    assert forall|i: int| 0 <= i < q[k].len() implies '\0' <= #[trigger] q[k][i] <= '\u{7f}' by {
                        if i < p[k].len() {
                            assert(q[k][i] == p[k][i]);
                        } else {
                            assert(q[k][i] == s[s.len() - 1]);
                        }
                    }
                } else {
                    assert(q[k] == p[k]);
                }
            }
        } else {
            let q = p.push(Seq::<char>::empty());
            assert forall|k: int| 0 <= k < q.len() implies vstd::utf8::is_ascii_chars(#[trigger] q[k]) by {
                if k < p.len() {
                    assert(q[k] == p[k]);
                }
            }
        }
    }
}

proof fn lemma_trim_start_ascii(s: Seq<char>)
    requires
        vstd::utf8::is_ascii_chars(s),
    ensures
        vstd::utf8::is_ascii_chars(trim_start(s)),
    decreases s.len(),
{
    if s.len() > 0 && is_white_space(s[0]) {
        let t = s.drop_first();
        assert forall|i: int| 0 <= i < t.len() implies '\0' <= #[trigger] t[i] <= '\u{7f}' by {
            assert(t[i] == s[i + 1]);
        }
        lemma_trim_start_ascii(t);
    }
}

proof fn lemma_trim_end_ascii(s: Seq<char>)
    requires
        vstd::utf8::is_ascii_chars(s),
    ensures
        vstd::utf8::is_ascii_chars(trim_end(s)),
    decreases s.len(),
{
    if s.len() > 0 && is_white_space(s.last()) {
        let t = s.drop_last();
        assert forall|i: int| 0 <= i < t.len() implies '\0' <= #[trigger] t[i] <= '\u{7f}' by {
            assert(t[i] == s[i]);
        }
        lemma_trim_end_ascii(t);
    }
}

proof fn lemma_csv_fields_ascii(line: Seq<char>)
    requires
        vstd::utf8::is_ascii_chars(line),
    ensures
        forall|k: int|
            0 <= k < csv_fields(line).len() ==> vstd::utf8::is_ascii_chars(#[trigger] csv_fields(line)[k]),
{
    lemma_split_on_ascii(line, ',');
    assert forall|k: int|
        0 <= k < csv_fields(line).len() implies vstd::utf8::is_ascii_chars(#[trigger] csv_fields(line)[k]) by {
        let piece = split_commas(line)[k];
        assert(vstd::utf8::is_ascii_chars(piece));
        lemma_trim_start_ascii(piece);
        lemma_trim_end_ascii(trim_start(piece));
        assert(csv_fields(line)[k] == trimmed(piece));
    }
}

/// Reads the column layout of a catalog CSV header line: its fields are
/// split at commas, trimmed and lower-cased, then resolved. On an ASCII
/// header the lower-casing is ASCII lower case.
pub fn parse_csv_header(header: &str) -> (r: Result<CsvColumns, String>)
    ensures
        match first_missing(header_names(header@), 0) {
            Some(col) => r is Err && r->Err_0@ == "Missing required column: "@ + col,
            None => r == Ok::<CsvColumns, String>(layout_of(header_names(header@))),
        },
        vstd::utf8::is_ascii_chars(header@) ==> header_names(header@) == ascii_header_names(header@),
{
    proof {
        if vstd::utf8::is_ascii_chars(header@) {
            lemma_csv_fields_ascii(header@);
        }
    }
    let fields = split_fields(header);
    let mut names: Vec<String> = Vec::new();
    let mut i: usize = 0;
    while i < fields.len()
        invariant
            i <= fields@.len(),
            fields@.len() == csv_fields(header@).len(),
            forall|k: int| 0 <= k < fields@.len() ==> (#[trigger] fields@[k])@ == csv_fields(header@)[k],
            names@.len() == i,
            forall|k: int| 0 <= k < i ==> (#[trigger] names@[k])@ == header_names(header@)[k],
            vstd::utf8::is_ascii_chars(header@) ==> forall|k: int|
                0 <= k < csv_fields(header@).len() ==> vstd::utf8::is_ascii_chars(
                    #[trigger] csv_fields(header@)[k],
                ),
            vstd::utf8::is_ascii_chars(header@) ==> forall|k: int|
                0 <= k < i ==> (#[trigger] names@[k])@ == ascii_header_names(header@)[k],
        decreases fields.len() - i,
    {
        names.push(to_lower(fields[i].as_str()));
        proof {
            if vstd::utf8::is_ascii_chars(header@) {
                assert(vstd::utf8::is_ascii_chars(csv_fields(header@)[i as int]));
            }
        }
        i += 1;
    }
    assert(names@.map_values(|s: String| s@) =~= header_names(header@));
    proof {
        if vstd::utf8::is_ascii_chars(header@) {
            assert(header_names(header@) =~= ascii_header_names(header@));
        }
    }
    resolve_columns(names.as_slice())
}

/// The object kind that a lower-case name stands for.
pub open spec fn type_named(lower: Seq<char>) -> Option<ObjectType> {
    if lower == "satellite"@ {
        Some(ObjectType::Satellite)
    } else if lower == "debris"@ {
        Some(ObjectType::Debris)
    } else {
        None
    }
}

/// The object kind written in a catalog field, in any case.
pub open spec fn object_type_of(field: Seq<char>) -> Option<ObjectType> {
    type_named(lowercased(field))
}

/// The object kind of a lower-case name: `satellite` or `debris`.
pub fn object_type_named(lower: &String) -> (t: Option<ObjectType>)
    ensures
        t == type_named(lower@),
{
    if *lower == String::from_str("satellite") {
        Some(ObjectType::Satellite)
    } else if *lower == String::from_str("debris") {
        Some(ObjectType::Debris)
    } else {
        None
    }
}

/// Reads an object kind: `satellite` or `debris` in any case. On an ASCII
/// field the case is folded by ASCII lower case.
pub fn parse_object_type(field: &str) -> (t: Option<ObjectType>)
    ensures
        t == object_type_of(field@),
        vstd::utf8::is_ascii_chars(field@) ==> t == type_named(ascii_lower(field@)),
{
    let lower = to_lower(field);
    object_type_named(&lower)
}

} // verus!
