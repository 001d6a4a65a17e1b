//! The date of a photo in its Exif data: the date of the shot, else of its
//! digitisation, else of the last change, whichever first gives a
//! plausible date.
use vstd::prelude::*;
use crate::stamp::{Stamp, valid_date, valid_hms, plausible, is_valid_date, is_plausible};

verus! {

/// The Exif fields that may hold a date, in the order they are tried.
#[derive(Clone, Copy, Debug, PartialEq, Eq, Structural)]
pub enum DateTag {
    /// `DateTimeOriginal`: when the shot was taken.
    Original,
    /// `DateTimeDigitized`: when it was digitised.
    Digitized,
    /// `DateTime`: when the file was last changed.
    Modified,
}

/// What the `exif` crate finds in raw Exif data (a TIFF structure) for a
/// date field of the primary image: the strings of its value, when that
/// value is ASCII.
pub uninterp spec fn exif_ascii_strings(tiff: Seq<u8>, tag: DateTag) -> Option<Seq<Seq<u8>>>;

pub open spec fn byte_views(v: Seq<Vec<u8>>) -> Seq<Seq<u8>> {
    v.map_values(|b: Vec<u8>| b@)
}

/// `exif::Reader::read_raw`, then `Exif::get_field` for the tag in the
/// primary image: the strings of the field when its value is ASCII.
/// Nothing when the data cannot be read, the field is missing, or its value
/// is not ASCII. What the TIFF parser reads is not stated: the result is
/// the one `exif_ascii_strings` names.
#[verifier::external_body]
fn ascii_strings(tiff: &[u8], tag: DateTag) -> (r: Option<Vec<Vec<u8>>>)
    ensures
        r matches Some(v) ==> exif_ascii_strings(tiff@, tag) == Some(byte_views(v@)),
        r is None ==> exif_ascii_strings(tiff@, tag) is None,
{
    let exif = match exif::Reader::new().read_raw(tiff.to_vec()) {
        Ok(e) => e,
        Err(_) => return None,
    };
    let t = match tag {
        DateTag::Original => exif::Tag::DateTimeOriginal,
        DateTag::Digitized => exif::Tag::DateTimeDigitized,
        DateTag::Modified => exif::Tag::DateTime,
    };
    match exif.get_field(t, exif::In::PRIMARY).map(|f| &f.value) {
        Some(exif::Value::Ascii(v)) => Some(v.clone()),
        _ => None,
    }
}

/// The text of a date field: the first string of its value.
pub open spec fn first_string(strings: Option<Seq<Seq<u8>>>) -> Option<Seq<u8>> {
    match strings {
        Some(v) => if v.len() > 0 { Some(v[0]) } else { None },
        None => None,
    }
}

/// The text of a date field of raw Exif data: the first string of its
/// ASCII value, if any.
pub fn ascii_field(tiff: &[u8], tag: DateTag) -> (r: Option<Vec<u8>>)
    ensures
        r matches Some(v) ==> first_string(exif_ascii_strings(tiff@, tag)) == Some(v@),
        r is None ==> first_string(exif_ascii_strings(tiff@, tag)) is None,
{
    match ascii_strings(tiff, tag) {
        Some(v) => {
            if v.len() > 0 {
                assert(byte_views(v@)[0] == v@[0]@);
                Some(v[0].clone())
            } else {
                None
            }
        },
        None => None,
    }
}

pub open spec fn ascii_digit(b: u8) -> bool {
    48 <= b <= 57
}

/// The value of the ASCII digits `d[a..b]`, when they are all digits.
pub open spec fn number_at(d: Seq<u8>, a: int, b: int) -> Option<nat>
    decreases b - a,
{
    if b <= a {
        Some(0)
    } else if !ascii_digit(d[b - 1]) {
        None
    } else {
        match number_at(d, a, b - 1) {
            Some(v) => Some(v * 10 + (d[b - 1] - 48) as nat),
            None => None,
        }
    }
}

/// `exif::DateTime::from_ascii`: `YYYY:MM:DD HH:MM:SS` (at least 19 bytes,
/// the delimiters in place, each number made of ASCII digits), as year,
/// month, day, hour, minute and second. The numbers are not checked
/// against the calendar.
pub open spec fn exif_datetime(d: Seq<u8>) -> Option<(u16, u8, u8, u8, u8, u8)> {
    if d.len() < 19 || !(d[4] == 58 && d[7] == 58 && d[10] == 32 && d[13] == 58 && d[16] == 58) {
        None
    } else {
        match (number_at(d, 0, 4), number_at(d, 5, 7), number_at(d, 8, 10), number_at(d, 11, 13), number_at(d, 14, 16), number_at(d, 17, 19)) {
            (Some(y), Some(mo), Some(da), Some(h), Some(mi), Some(s)) => Some((y as u16, mo as u8, da as u8, h as u8, mi as u8, s as u8)),
            _ => None,
        }
    }
}

/// `exif::DateTime::from_ascii`, keeping the fields read from the text. Its
/// contract states the format the crate's source accepts (the blank
/// values it rejects first are rejected by the format as well).
#[verifier::external_body]
fn parse_exif_datetime(d: &[u8]) -> (r: Option<(u16, u8, u8, u8, u8, u8)>)
    ensures
        r == exif_datetime(d@),
{
    match exif::DateTime::from_ascii(d) {
        Ok(dt) => Some((dt.year, dt.month, dt.day, dt.hour, dt.minute, dt.second)),
        Err(_) => None,
    }
}

/// The date of a field's text, when it is one and plausible.
pub open spec fn stamp_of_exif_text(d: Seq<u8>) -> Option<Stamp> {
    match exif_datetime(d) {
        Some((y, mo, da, h, mi, s)) => if valid_date(y as int, mo as int, da as int) && valid_hms(h as int, mi as int, s as int) {
            let st = Stamp { year: y as i32, month: mo as u32, day: da as u32, hour: h as u32, minute: mi as u32, second: s as u32, nano: 0 };
            if plausible(st) {
                Some(st)
            } else {
                None
            }
        } else {
            None
        },
        None => None,
    }
}

/// The date of the fields, tried in order (shot, digitisation, change).
pub open spec fn stamp_of_exif_fields(fields: Seq<Option<Seq<u8>>>) -> Option<Stamp>
    decreases fields.len(),
{
    if fields.len() == 0 {
        None
    } else {
        match fields[0] {
            Some(d) => match stamp_of_exif_text(d) {
                Some(st) => Some(st),
                None => stamp_of_exif_fields(fields.drop_first()),
            },
            None => stamp_of_exif_fields(fields.drop_first()),
        }
    }
}

/// A date read in Exif data is plausible (between 1980 and 2199) and
/// exists.
pub proof fn law_exif_date_plausible(fields: Seq<Option<Seq<u8>>>)
    ensures
        stamp_of_exif_fields(fields) matches Some(s) ==> plausible(s) && s.wf(),
    decreases fields.len(),
{
    if fields.len() > 0 {
        law_exif_date_plausible(fields.drop_first());
    }
}

pub open spec fn field_views(v: Seq<Option<Vec<u8>>>) -> Seq<Option<Seq<u8>>> {
    v.map_values(|f: Option<Vec<u8>>| match f {
        Some(b) => Some(b@),
        None => None,
    })
}

/// The date of a field's text, when it is one and plausible.
pub fn stamp_of_exif_bytes(d: &[u8]) -> (r: Option<Stamp>)
    ensures
        r == stamp_of_exif_text(d@),
{
    match parse_exif_datetime(d) {
        Some((y, mo, da, h, mi, s)) => {
            if is_valid_date(y as i32, mo as u32, da as u32) && h < 24 && mi < 60 && s < 60 {
                let st = Stamp {
                    year: y as i32,
                    month: mo as u32,
                    day: da as u32,
                    hour: h as u32,
                    minute: mi as u32,
                    second: s as u32,
                    nano: 0,
                };
                if is_plausible(&st) {
                    Some(st)
                } else {
                    None
                }
            } else {
                None
            }
        },
        None => None,
    }
}

/// The date given by the first field, in order, that gives one.
pub fn timestamp_from_exif_fields(fields: &Vec<Option<Vec<u8>>>) -> (r: Option<Stamp>)
    ensures
        r == stamp_of_exif_fields(field_views(fields@)),
{
    let ghost all = field_views(fields@);
    let mut i: usize = 0;
    assert(all.skip(0) =~= all);
    while i < fields.len()
        invariant
            all == field_views(fields@),
            i <= fields.len(),
            stamp_of_exif_fields(all) == stamp_of_exif_fields(all.skip(i as int)),
        decreases fields.len() - i,
    {
        let ghost rest = all.skip(i as int);
        assert(rest.drop_first() =~= all.skip(i + 1));
        match &fields[i] {
            Some(d) => {
                assert(rest[0] == Some(d@));
                match stamp_of_exif_bytes(d.as_slice()) {
                    Some(st) => {
                        return Some(st);
                    },
                    None => {},
                }
            },
            None => {
                assert(rest[0] is None);
            },
        }
        i = i + 1;
    }
    assert(all.skip(i as int).len() == 0);
    None
}

/// The date fields of raw Exif data, in the order they are tried.
pub open spec fn exif_fields_of(tiff: Seq<u8>) -> Seq<Option<Seq<u8>>> {
    seq![
        first_string(exif_ascii_strings(tiff, DateTag::Original)),
        first_string(exif_ascii_strings(tiff, DateTag::Digitized)),
        first_string(exif_ascii_strings(tiff, DateTag::Modified)),
    ]
}

/// `exif_timestamp`: the date of a photo, from its raw Exif data.
pub fn exif_timestamp(tiff: &[u8]) -> (r: Option<Stamp>)
    ensures
        r == stamp_of_exif_fields(exif_fields_of(tiff@)),
{
    let mut fields: Vec<Option<Vec<u8>>> = Vec::new();
    fields.push(ascii_field(tiff, DateTag::Original));
    fields.push(ascii_field(tiff, DateTag::Digitized));
    fields.push(ascii_field(tiff, DateTag::Modified));
    assert(field_views(fields@) =~= exif_fields_of(tiff@));
    timestamp_from_exif_fields(&fields)
}

} // verus!
