//! Input-format selection: file extensions, and the checks the driver
//! runs before reading anything.

use vstd::prelude::*;

use crate::errors::TilerError;

verus! {

/// The input formats the readers understand.
#[derive(Debug, Clone, Copy, PartialEq, Eq, Structural)]
pub enum Extension {
    Las,
    Laz,
    Csv,
    Txt,
}

/// The format named by an extension, if it is a supported one.
pub open spec fn extension_of(s: Seq<char>) -> Option<Extension> {
    if s == "las"@ {
        Some(Extension::Las)
    } else if s == "laz"@ {
        Some(Extension::Laz)
    } else if s == "csv"@ {
        Some(Extension::Csv)
    } else if s == "txt"@ {
        Some(Extension::Txt)
    } else {
        None
    }
}

/// Two string slices hold the same characters.
fn str_eq(a: &str, b: &str) -> (r: bool)
    ensures
        r == (a@ == b@),
{
    let sa = a.to_owned();
    let sb = b.to_owned();
    sa == sb
}

/// The format named by an extension, or nothing for an unsupported one.
pub fn try_get_extension(extension: &str) -> (r: Option<Extension>)
    ensures
        r == extension_of(extension@),
{
    if str_eq(extension, "las") {
        Some(Extension::Las)
    } else if str_eq(extension, "laz") {
        Some(Extension::Laz)
    } else if str_eq(extension, "csv") {
        Some(Extension::Csv)
    } else if str_eq(extension, "txt") {
        Some(Extension::Txt)
    } else {
        None
    }
}

/// The format named by a supported extension.
pub fn get_extension(extension: &str) -> (r: Extension)
    requires
        extension_of(extension@) is Some,
    ensures
        Some(r) == extension_of(extension@),
{
    match try_get_extension(extension) {
        Some(e) => e,
        None => {
            proof {
                assert(false);
            }
            Extension::Txt
        },
    }
}

/// The views of the extension strings of an input list.
pub open spec fn ext_views(exts: Seq<String>) -> Seq<Seq<char>> {
    exts.map_values(|s: String| s@)
}

/// The one format a whole input list names: nothing when the list is
/// empty, when the extensions differ, or when one is unsupported.
pub open spec fn common_extension(l: Seq<Seq<char>>) -> Option<Extension> {
    if l.len() == 0 {
        None
    } else if forall|i: int| 0 <= i < l.len() ==> #[trigger] l[i] == l[0] {
        extension_of(l[0])
    } else {
        None
    }
}

/// The driver's input check: every file must carry the same supported
/// extension, and there must be at least one file.
pub fn check_and_get_extension(exts: &Vec<String>) -> (r: Result<Extension, TilerError>)
    ensures
        match r {
            Ok(e) => common_extension(ext_views(exts@)) == Some(e),
            Err(err) => err == TilerError::InputFailure && common_extension(
                ext_views(exts@),
            ) is None,
        },
{
    let ghost l = ext_views(exts@);
    if exts.len() == 0 {
        return Err(TilerError::InputFailure);
    }
    proof {
        assert(l[0] == exts@[0]@);
    }
    let mut i: usize = 1;
    while i < exts.len()
        invariant
            1 <= i <= exts@.len(),
            l == ext_views(exts@),
            l.len() == exts@.len(),
            forall|k: int| 0 <= k < i ==> #[trigger] l[k] == l[0],
        decreases exts@.len() - i,
    {
        proof {
            assert(l[i as int] == exts@[i as int]@);
        }
        if !str_eq(exts[i].as_str(), exts[0].as_str()) {
            proof {
                assert(l[i as int] != l[0]);
            }
            return Err(TilerError::InputFailure);
        }
        i = i + 1;
    }
    match try_get_extension(exts[0].as_str()) {
        Some(e) => {
            proof {
                assert(extension_of(l[0]) == Some(e));
            }
            Ok(e)
        },
        None => Err(TilerError::InputFailure),
    }
}

/// An upper-case ASCII letter mapped to lower case; anything else kept.
pub open spec fn lower_char(c: char) -> char {
    if 65 <= c as u32 <= 90 {
        (((c as u32) + 32) as u8) as char
    } else {
        c
    }
}

/// A header character that takes part in matching: underscores and
/// hyphens are dropped.
pub open spec fn keep_char(c: char) -> bool {
    c != '_' && c != '-'
}

/// A header normalized for matching: lower-cased, separators dropped.
pub open spec fn normalize_chars(s: Seq<char>) -> Seq<char>
    decreases s.len(),
{
    if s.len() == 0 {
        Seq::empty()
    } else {
        normalize_chars(s.drop_last()) + (if keep_char(s.last()) {
            seq![lower_char(s.last())]
        } else {
            Seq::empty()
        })
    }
}

/// The last header whose normalized form is `name`.
pub open spec fn last_match(headers: Seq<Seq<char>>, name: Seq<char>) -> Option<int>
    decreases headers.len(),
{
    if headers.len() == 0 {
        None
    } else if normalize_chars(headers.last()) == name {
        Some(headers.len() - 1)
    } else {
        last_match(headers.drop_last(), name)
    }
}

/// The views of a list of header strings.
pub open spec fn header_views(headers: Seq<String>) -> Seq<Seq<char>> {
    headers.map_values(|s: String| s@)
}

/// Normalize one header for matching.
fn normalize_header(s: &str) -> (r: Vec<char>)
    ensures
        r@ == normalize_chars(s@),
{
    let n = s.unicode_len();
    let mut r: Vec<char> = Vec::new();
    let mut i: usize = 0;
    proof {
        assert(s@.take(0) =~= Seq::<char>::empty());
    }
    while i < n
        invariant
            i <= n,
            n == s@.len(),
            r@ == normalize_chars(s@.take(i as int)),
        decreases n - i,
    {
        proof {
            assert(s@.take(i + 1 as int).drop_last() =~= s@.take(i as int));
            assert(s@.take(i + 1 as int).last() == s@[i as int]);
        }
        let c = s.get_char(i);
        if c != '_' && c != '-' {
            let u = c as u32;
            if 65 <= u && u <= 90 {
                r.push(((u + 32) as u8) as char);
            } else {
                r.push(c);
            }
            proof {
                assert(r@ =~= normalize_chars(s@.take(i + 1 as int)));
            }
        } else {
            proof {
                assert(r@ =~= normalize_chars(s@.take(i + 1 as int)));
            }
        }
        i = i + 1;
    }
    proof {
        assert(s@.take(n as int) =~= s@);
    }
    r
}

/// Compare a normalized header with an attribute name.
fn chars_eq_lit(v: &Vec<char>, name: &str) -> (r: bool)
    ensures
        r == (v@ == name@),
{
    let n = name.unicode_len();
    if v.len() != n {
        proof {
            assert(v@.len() != name@.len());
        }
        return false;
    }
    let mut i: usize = 0;
    while i < n
        invariant
            i <= n,
            n == name@.len(),
            v@.len() == n,
            forall|k: int| 0 <= k < i ==> v@[k] == name@[k],
        decreases n - i,
    {
        if v[i] != name.get_char(i) {
            return false;
        }
        i = i + 1;
    }
    proof {
        assert(v@ =~= name@);
    }
    true
}

/// Where each recognized attribute stands in a record, if anywhere.
#[derive(Debug, Clone, Copy)]
pub struct FieldMapping {
    pub x: Option<usize>,
    pub y: Option<usize>,
    pub z: Option<usize>,
    pub intensity: Option<usize>,
    pub return_number: Option<usize>,
    pub classification: Option<usize>,
    pub scanner_channel: Option<usize>,
    pub scan_angle: Option<usize>,
    pub user_data: Option<usize>,
    pub point_source_id: Option<usize>,
    pub gps_time: Option<usize>,
    pub r: Option<usize>,
    pub g: Option<usize>,
    pub b: Option<usize>,
    pub red: Option<usize>,
    pub green: Option<usize>,
    pub blue: Option<usize>,
}

/// A `usize` position agreeing with a mathematical match position.
pub open spec fn opt_match(o: Option<usize>, l: Option<int>) -> bool {
    match (o, l) {
        (Some(a), Some(b)) => a == b,
        (None, None) => true,
        _ => false,
    }
}

/// Every field of the mapping points at the last header that names it.
pub open spec fn mapping_matches(m: FieldMapping, hv: Seq<Seq<char>>) -> bool {
    &&& opt_match(m.x, last_match(hv, "x"@))
    &&& opt_match(m.y, last_match(hv, "y"@))
    &&& opt_match(m.z, last_match(hv, "z"@))
    &&& opt_match(m.intensity, last_match(hv, "intensity"@))
    &&& opt_match(m.return_number, last_match(hv, "returnnumber"@))
    &&& opt_match(m.classification, last_match(hv, "classification"@))
    &&& opt_match(m.scanner_channel, last_match(hv, "scannerchannel"@))
    &&& opt_match(m.scan_angle, last_match(hv, "scanangle"@))
    &&& opt_match(m.user_data, last_match(hv, "userdata"@))
    &&& opt_match(m.point_source_id, last_match(hv, "pointsourceid"@))
    &&& opt_match(m.gps_time, last_match(hv, "gpstime"@))
    &&& opt_match(m.r, last_match(hv, "r"@))
    &&& opt_match(m.g, last_match(hv, "g"@))
    &&& opt_match(m.b, last_match(hv, "b"@))
    &&& opt_match(m.red, last_match(hv, "red"@))
    &&& opt_match(m.green, last_match(hv, "green"@))
    &&& opt_match(m.blue, last_match(hv, "blue"@))
}

/// The fixed mapping used when the file has no header row: the
/// attributes stand in list order.
pub open spec fn positional_mapping() -> FieldMapping {
    FieldMapping {
        x: Some(0),
        y: Some(1),
        z: Some(2),
        intensity: Some(3),
        return_number: Some(4),
        classification: Some(5),
        scanner_channel: Some(6),
        scan_angle: Some(7),
        user_data: Some(8),
        point_source_id: Some(9),
        gps_time: Some(10),
        r: Some(11),
        g: Some(12),
        b: Some(13),
        red: Some(14),
        green: Some(15),
        blue: Some(16),
    }
}

/// Taking one more header moves a name's last match to it when it
/// matches, and changes nothing otherwise.
proof fn lemma_last_match_step(hv: Seq<Seq<char>>, i: int, name: Seq<char>)
    requires
        0 <= i < hv.len(),
    ensures
        last_match(hv.take(i + 1), name) == (if normalize_chars(hv[i]) == name {
            Some(i)
        } else {
            last_match(hv.take(i), name)
        }),
{
    assert(hv.take(i + 1).drop_last() =~= hv.take(i));
    assert(hv.take(i + 1).last() == hv[i]);
}

/// Record one normalized header in the mapping: each attribute it names
/// takes position `i`.
#[verifier::rlimit(100)]
fn apply_header(m: &mut FieldMapping, norm: &Vec<char>, i: usize)
    ensures
        final(m).x == (if norm@ == "x"@ { Some(i) } else { old(m).x }),
        final(m).y == (if norm@ == "y"@ { Some(i) } else { old(m).y }),
        final(m).z == (if norm@ == "z"@ { Some(i) } else { old(m).z }),
        final(m).intensity == (if norm@ == "intensity"@ { Some(i) } else { old(m).intensity }),
        final(m).return_number == (if norm@ == "returnnumber"@ { Some(i) } else { old(m).return_number }),
        final(m).classification == (if norm@ == "classification"@ { Some(i) } else { old(m).classification }),
        final(m).scanner_channel == (if norm@ == "scannerchannel"@ { Some(i) } else { old(m).scanner_channel }),
        final(m).scan_angle == (if norm@ == "scanangle"@ { Some(i) } else { old(m).scan_angle }),
        final(m).user_data == (if norm@ == "userdata"@ { Some(i) } else { old(m).user_data }),
        final(m).point_source_id == (if norm@ == "pointsourceid"@ { Some(i) } else { old(m).point_source_id }),
        final(m).gps_time == (if norm@ == "gpstime"@ { Some(i) } else { old(m).gps_time }),
        final(m).r == (if norm@ == "r"@ { Some(i) } else { old(m).r }),
        final(m).g == (if norm@ == "g"@ { Some(i) } else { old(m).g }),
        final(m).b == (if norm@ == "b"@ { Some(i) } else { old(m).b }),
        final(m).red == (if norm@ == "red"@ { Some(i) } else { old(m).red }),
        final(m).green == (if norm@ == "green"@ { Some(i) } else { old(m).green }),
        final(m).blue == (if norm@ == "blue"@ { Some(i) } else { old(m).blue }),
{
    let ex = chars_eq_lit(norm, "x");
    let ey = chars_eq_lit(norm, "y");
    let ez = chars_eq_lit(norm, "z");
    let eintensity = chars_eq_lit(norm, "intensity");
    let ereturn = chars_eq_lit(norm, "returnnumber");
    let eclass = chars_eq_lit(norm, "classification");
    let escanner = chars_eq_lit(norm, "scannerchannel");
    let eangle = chars_eq_lit(norm, "scanangle");
    let euser = chars_eq_lit(norm, "userdata");
    let esource = chars_eq_lit(norm, "pointsourceid");
    let egps = chars_eq_lit(norm, "gpstime");
    let er = chars_eq_lit(norm, "r");
    let eg = chars_eq_lit(norm, "g");
    let eb = chars_eq_lit(norm, "b");
    let ered = chars_eq_lit(norm, "red");
    let egreen = chars_eq_lit(norm, "green");
    let eblue = chars_eq_lit(norm, "blue");
    let nx = if ex { Some(i) } else { m.x };
    let ny = if ey { Some(i) } else { m.y };
    let nz = if ez { Some(i) } else { m.z };
    let nintensity = if eintensity { Some(i) } else { m.intensity };
    let nreturn = if ereturn { Some(i) } else { m.return_number };
    let nclass = if eclass { Some(i) } else { m.classification };
    let nscanner = if escanner { Some(i) } else { m.scanner_channel };
    let nangle = if eangle { Some(i) } else { m.scan_angle };
    let nuser = if euser { Some(i) } else { m.user_data };
    let nsource = if esource { Some(i) } else { m.point_source_id };
    let ngps = if egps { Some(i) } else { m.gps_time };
    let nr = if er { Some(i) } else { m.r };
    let ng = if eg { Some(i) } else { m.g };
    let nb = if eb { Some(i) } else { m.b };
    let nred = if ered { Some(i) } else { m.red };
    let ngreen = if egreen { Some(i) } else { m.green };
    let nblue = if eblue { Some(i) } else { m.blue };
    *m = FieldMapping {
        x: nx,
        y: ny,
        z: nz,
        intensity: nintensity,
        return_number: nreturn,
        classification: nclass,
        scanner_channel: nscanner,
        scan_angle: nangle,
        user_data: nuser,
        point_source_id: nsource,
        gps_time: ngps,
        r: nr,
        g: ng,
        b: nb,
        red: nred,
        green: ngreen,
        blue: nblue,
    };
}

/// Build the mapping from a header row.  Fails when any of the three
/// coordinate columns is missing.  Matching lower-cases ASCII letters
/// and ignores underscores and hyphens, so `Scan_Angle` finds
/// `scanangle`.
#[verifier::rlimit(100)]
pub fn create_field_mapping(headers: &Vec<String>, has_headers: bool) -> (r: Result<
    FieldMapping,
    TilerError,
>)
    ensures
        match r {
            Ok(m) => {
                if has_headers {
                    mapping_matches(m, header_views(headers@)) && m.x is Some && m.y is Some
                        && m.z is Some
                } else {
                    m == positional_mapping()
                }
            },
            Err(e) => e == TilerError::FormatFailure && has_headers && (last_match(
                header_views(headers@),
                "x"@,
            ) is None || last_match(header_views(headers@), "y"@) is None || last_match(
                header_views(headers@),
                "z"@,
            ) is None),
        },
{
    if !has_headers {
        return Ok(
            FieldMapping {
                x: Some(0),
                y: Some(1),
                z: Some(2),
                intensity: Some(3),
                return_number: Some(4),
                classification: Some(5),
                scanner_channel: Some(6),
                scan_angle: Some(7),
                user_data: Some(8),
                point_source_id: Some(9),
                gps_time: Some(10),
                r: Some(11),
                g: Some(12),
                b: Some(13),
                red: Some(14),
                green: Some(15),
                blue: Some(16),
            },
        );
    }
    let ghost hv = header_views(headers@);
    let mut m = FieldMapping {
        x: None,
        y: None,
        z: None,
        intensity: None,
        return_number: None,
        classification: None,
        scanner_channel: None,
        scan_angle: None,
        user_data: None,
        point_source_id: None,
        gps_time: None,
        r: None,
        g: None,
        b: None,
        red: None,
        green: None,
        blue: None,
    };
    let mut i: usize = 0;
    proof {
        assert(hv.take(0) =~= Seq::<Seq<char>>::empty());
    }
    while i < headers.len()
        invariant
            i <= headers@.len(),
            hv == header_views(headers@),
            hv.len() == headers@.len(),
            mapping_matches(m, hv.take(i as int)),
        decreases headers@.len() - i,
    {
        proof {
            assert(hv[i as int] == headers@[i as int]@);
            lemma_last_match_step(hv, i as int, "x"@);
            lemma_last_match_step(hv, i as int, "y"@);
            lemma_last_match_step(hv, i as int, "z"@);
            lemma_last_match_step(hv, i as int, "intensity"@);
            lemma_last_match_step(hv, i as int, "returnnumber"@);
            lemma_last_match_step(hv, i as int, "classification"@);
            lemma_last_match_step(hv, i as int, "scannerchannel"@);
            lemma_last_match_step(hv, i as int, "scanangle"@);
            lemma_last_match_step(hv, i as int, "userdata"@);
            lemma_last_match_step(hv, i as int, "pointsourceid"@);
            lemma_last_match_step(hv, i as int, "gpstime"@);
            lemma_last_match_step(hv, i as int, "r"@);
            lemma_last_match_step(hv, i as int, "g"@);
            lemma_last_match_step(hv, i as int, "b"@);
            lemma_last_match_step(hv, i as int, "red"@);
            lemma_last_match_step(hv, i as int, "green"@);
            lemma_last_match_step(hv, i as int, "blue"@);
        }
        let norm = normalize_header(headers[i].as_str());
        apply_header(&mut m, &norm, i);
        i = i + 1;
    }
    proof {
        assert(hv.take(headers@.len() as int) =~= hv);
    }
    if m.x.is_none() || m.y.is_none() || m.z.is_none() {
        return Err(TilerError::FormatFailure);
    }
    Ok(m)
}

/// The mapping field a name refers to.
pub open spec fn field_index(m: FieldMapping, name: Seq<char>) -> Option<usize> {
    if name == "x"@ {
        m.x
    } else if name == "y"@ {
        m.y
    } else if name == "z"@ {
        m.z
    } else if name == "intensity"@ {
        m.intensity
    } else if name == "return_number"@ {
        m.return_number
    } else if name == "classification"@ {
        m.classification
    } else if name == "scanner_channel"@ {
        m.scanner_channel
    } else if name == "scan_angle"@ {
        m.scan_angle
    } else if name == "user_data"@ {
        m.user_data
    } else if name == "point_source_id"@ {
        m.point_source_id
    } else if name == "gps_time"@ {
        m.gps_time
    } else if name == "r"@ {
        m.r
    } else if name == "g"@ {
        m.g
    } else if name == "b"@ {
        m.b
    } else if name == "red"@ {
        m.red
    } else if name == "green"@ {
        m.green
    } else if name == "blue"@ {
        m.blue
    } else {
        None
    }
}

/// The record column a field name maps to, when the record has it.
pub fn get_field_value<'a>(
    record: &'a Vec<String>,
    field_mapping: &FieldMapping,
    field_name: &str,
) -> (r: Option<&'a String>)
    ensures
        match r {
            Some(v) => {
                &&& field_index(*field_mapping, field_name@) matches Some(i)
                &&& field_index(*field_mapping, field_name@).unwrap() < record@.len()
                &&& *v == record@[field_index(*field_mapping, field_name@).unwrap() as int]
            },
            None => field_index(*field_mapping, field_name@) is None || field_index(
                *field_mapping,
                field_name@,
            ).unwrap() >= record@.len(),
        },
{
    let idx: Option<usize> = if str_eq(field_name, "x") {
        field_mapping.x
    } else if str_eq(field_name, "y") {
        field_mapping.y
    } else if str_eq(field_name, "z") {
        field_mapping.z
    } else if str_eq(field_name, "intensity") {
        field_mapping.intensity
    } else if str_eq(field_name, "return_number") {
        field_mapping.return_number
    } else if str_eq(field_name, "classification") {
        field_mapping.classification
    } else if str_eq(field_name, "scanner_channel") {
        field_mapping.scanner_channel
    } else if str_eq(field_name, "scan_angle") {
        field_mapping.scan_angle
    } else if str_eq(field_name, "user_data") {
        field_mapping.user_data
    } else if str_eq(field_name, "point_source_id") {
        field_mapping.point_source_id
    } else if str_eq(field_name, "gps_time") {
        field_mapping.gps_time
    } else if str_eq(field_name, "r") {
        field_mapping.r
    } else if str_eq(field_name, "g") {
        field_mapping.g
    } else if str_eq(field_name, "b") {
        field_mapping.b
    } else if str_eq(field_name, "red") {
        field_mapping.red
    } else if str_eq(field_name, "green") {
        field_mapping.green
    } else if str_eq(field_name, "blue") {
        field_mapping.blue
    } else {
        None
    };
    match idx {
        Some(i) => {
            if i < record.len() {
                Some(&record[i])
            } else {
                None
            }
        },
        None => None,
    }
}

/// All characters are decimal digits, and there is at least one.
pub open spec fn is_digits(s: Seq<char>) -> bool {
    s.len() > 0 && forall|i: int| 0 <= i < s.len() ==> '0' <= #[trigger] s[i] <= '9'
}

/// The number the digit string denotes.
pub open spec fn dec_value(s: Seq<char>) -> int
    decreases s.len(),
{
    if s.len() == 0 {
        0
    } else {
        dec_value(s.drop_last()) * 10 + (s.last() as u32 - '0' as u32)
    }
}

/// A longer digit prefix denotes no smaller a number.
proof fn lemma_dec_value_monotonic(s: Seq<char>, i: int)
    requires
        0 <= i <= s.len(),
        forall|k: int| 0 <= k < s.len() ==> '0' <= #[trigger] s[k] <= '9',
    ensures
        dec_value(s) >= dec_value(s.take(i)),
        dec_value(s) >= 0,
    decreases s.len() - i,
{
    if i == s.len() {
        assert(s.take(i) =~= s);
        lemma_dec_value_nonneg(s);
    } else {
        lemma_dec_value_monotonic(s, i + 1);
        assert(s.take(i + 1).drop_last() =~= s.take(i));
        assert(s.take(i + 1).last() == s[i]);
        lemma_dec_value_nonneg(s.take(i));
    }
}

/// Digit strings denote nothing negative.
proof fn lemma_dec_value_nonneg(s: Seq<char>)
    requires
        forall|k: int| 0 <= k < s.len() ==> '0' <= #[trigger] s[k] <= '9',
    ensures
        dec_value(s) >= 0,
    decreases s.len(),
{
    if s.len() > 0 {
        assert(forall|k: int|
            0 <= k < s.drop_last().len() ==> '0' <= #[trigger] s.drop_last()[k] <= '9');
        lemma_dec_value_nonneg(s.drop_last());
    }
}

/// Parse an unsigned decimal number.  Succeeds exactly on non-empty
/// all-digit strings whose value fits a `u32`.
pub fn parse_u32(s: &str) -> (r: Option<u32>)
    ensures
        match r {
            Some(v) => is_digits(s@) && v == dec_value(s@),
            None => !is_digits(s@) || dec_value(s@) > u32::MAX,
        },
{
    let n = s.unicode_len();
    if n == 0 {
        return None;
    }
    let mut acc: u64 = 0;
    let mut i: usize = 0;
    proof {
        assert(s@.take(0) =~= Seq::<char>::empty());
    }
    while i < n
        invariant
            i <= n,
            n == s@.len(),
            acc == dec_value(s@.take(i as int)),
            acc <= u32::MAX,
            forall|k: int| 0 <= k < i ==> '0' <= #[trigger] s@[k] <= '9',
        decreases n - i,
    {
        proof {
            assert(s@.take(i + 1 as int).drop_last() =~= s@.take(i as int));
            assert(s@.take(i + 1 as int).last() == s@[i as int]);
        }
        let c = s.get_char(i);
        if c < '0' || c > '9' {
            return None;
        }
        let d = (c as u32) - 48;
        acc = acc * 10 + (d as u64);
        if acc > 0xffffffff {
            proof {
                if is_digits(s@) {
                    lemma_dec_value_monotonic(s@, i + 1);
                }
            }
            return None;
        }
        i = i + 1;
    }
    proof {
        assert(s@.take(n as int) =~= s@);
    }
    Some(acc as u32)
}

/// The tile key encoded in the three path components of a tile file
/// `<z>/<x>/<y>.bin`, handed in as the bare component strings.  A
/// malformed path is a scratch-tree corruption, reported as an I/O
/// failure.
pub fn extract_tile_coords(z_s: &str, x_s: &str, y_s: &str) -> (r: Result<
    (u8, u32, u32),
    TilerError,
>)
    ensures
        match r {
            Ok((z, x, y)) => is_digits(z_s@) && is_digits(x_s@) && is_digits(y_s@) && z
                == dec_value(z_s@) && x == dec_value(x_s@) && y == dec_value(y_s@),
            Err(e) => e == TilerError::IoFailure && (!is_digits(z_s@) || dec_value(z_s@) > 255
                || !is_digits(x_s@) || dec_value(x_s@) > u32::MAX || !is_digits(y_s@)
                || dec_value(y_s@) > u32::MAX),
        },
{
    let z = match parse_u32(z_s) {
        Some(v) => v,
        None => {
            return Err(TilerError::IoFailure);
        },
    };
    if z > 255 {
        return Err(TilerError::IoFailure);
    }
    let x = match parse_u32(x_s) {
        Some(v) => v,
        None => {
            return Err(TilerError::IoFailure);
        },
    };
    let y = match parse_u32(y_s) {
        Some(v) => v,
        None => {
            return Err(TilerError::IoFailure);
        },
    };
    Ok((z as u8, x, y))
}

/// Nothing but ASCII whitespace.
pub open spec fn is_blank(s: Seq<char>) -> bool {
    forall|i: int| 0 <= i < s.len() ==> (#[trigger] s[i] == ' ' || s[i] == '\t' || s[i] == '\r' || s[i] == '\n')
}

/// The column a field name maps to, as an owned string, or nothing when
/// the column is absent or holds only whitespace.
pub fn parse_optional_field(
    record: &Vec<String>,
    field_mapping: &FieldMapping,
    field_name: &str,
) -> (r: Option<String>)
    ensures
        match r {
            Some(v) => {
                &&& field_index(*field_mapping, field_name@) matches Some(i)
                &&& field_index(*field_mapping, field_name@).unwrap() < record@.len()
                &&& v@ == record@[field_index(*field_mapping, field_name@).unwrap() as int]@
                &&& !is_blank(v@)
            },
            None => field_index(*field_mapping, field_name@) is None || field_index(
                *field_mapping,
                field_name@,
            ).unwrap() >= record@.len() || is_blank(
                record@[field_index(*field_mapping, field_name@).unwrap() as int]@,
            ),
        },
{
    match get_field_value(record, field_mapping, field_name) {
        Some(v) => {
            let s = v.as_str();
            let n = s.unicode_len();
            let mut i: usize = 0;
            while i < n
                invariant
                    i <= n,
                    n == s@.len(),
                    s@ == v@,
                    field_index(*field_mapping, field_name@) matches Some(ix),
                    field_index(*field_mapping, field_name@).unwrap() < record@.len(),
                    *v == record@[field_index(*field_mapping, field_name@).unwrap() as int],
                    forall|k: int|
                        0 <= k < i ==> (#[trigger] s@[k] == ' ' || s@[k] == '\t' || s@[k] == '\r'
                            || s@[k] == '\n'),
                decreases n - i,
            {
                let c = s.get_char(i);
                if c != ' ' && c != '\t' && c != '\r' && c != '\n' {
                    proof {
                        assert(s@[i as int] != ' ');
                        assert(!is_blank(s@));
                    }
                    return Some(v.clone());
                }
                i = i + 1;
            }
            None
        },
        None => None,
    }
}

} // verus!
