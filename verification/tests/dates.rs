use flash::exifdate::{ascii_field, exif_timestamp, stamp_of_exif_bytes, timestamp_from_exif_fields, DateTag};
use flash::library::TsSource;
use flash::mp4date::{
    contents_of_atom, mp4_creation_time, mp4_date_from_local, mvhd_seconds, scan_atom,
    walk_continues, AtomStep,
};
use flash::namedate::{
    filename_timestamp, parse_i32_chars, parse_u32_chars, stamp_of_match, timestamp_from_captures,
};
use flash::timing::{choose_timestamp, earliest_plausible, fs_date_from, fs_timestamp, timestamp_for};
use flash::Stamp;

use chrono::{Datelike, TimeZone, Timelike};

fn d(y: i32, mo: u32, da: u32, h: u32, mi: u32) -> Stamp {
    ds(y, mo, da, h, mi, 0)
}

fn ds(y: i32, mo: u32, da: u32, h: u32, mi: u32, s: u32) -> Stamp {
    Stamp { year: y, month: mo, day: da, hour: h, minute: mi, second: s, nano: 0 }
}

fn stamp_of(n: chrono::NaiveDateTime) -> Stamp {
    Stamp {
        year: n.year(),
        month: n.month(),
        day: n.day(),
        hour: n.hour(),
        minute: n.minute(),
        second: n.second(),
        nano: n.nanosecond(),
    }
}

fn chars(s: &str) -> Vec<char> {
    s.chars().collect()
}

#[test]
fn deduit_la_date_du_nom_de_fichier() {
    assert_eq!(
        filename_timestamp("IMG-20260410-WA0012.jpg"),
        Some(d(2026, 4, 10, 12, 0))
    );
    assert_eq!(
        filename_timestamp("WhatsApp Video 2026-04-10 at 14.30.22.mp4"),
        Some(ds(2026, 4, 10, 14, 30, 22))
    );
    assert_eq!(
        filename_timestamp("Capture d'écran 2026-04-10 à 17.03.12.png"),
        Some(ds(2026, 4, 10, 17, 3, 12))
    );
    assert_eq!(
        filename_timestamp("PXL_20260410_150312123.mp4"),
        Some(ds(2026, 4, 10, 15, 3, 12))
    );
    assert_eq!(
        filename_timestamp("Screenshot_20260410-170312.png"),
        Some(ds(2026, 4, 10, 17, 3, 12))
    );
    assert_eq!(
        filename_timestamp("20260410_170312.jpg"),
        Some(ds(2026, 4, 10, 17, 3, 12))
    );
    assert_eq!(filename_timestamp("DSC_1234.jpg"), None);
    assert_eq!(filename_timestamp("IMG_9999.HEIC"), None);
}

#[test]
fn name_date_skips_impossible_candidates() {
    // 2026-13-45 is no date; the next candidate is.
    assert_eq!(
        filename_timestamp("20261345 puis 20250102_101112.jpg"),
        Some(ds(2025, 1, 2, 10, 11, 12))
    );
    // 29 February only in leap years.
    assert_eq!(filename_timestamp("20240229.jpg"), Some(d(2024, 2, 29, 12, 0)));
    assert_eq!(filename_timestamp("20250229.jpg"), None);
    // A time that is no time falls back to noon.
    assert_eq!(filename_timestamp("20250102_2599.jpg"), Some(d(2025, 1, 2, 12, 0)));
}

#[test]
fn captures_give_the_first_date() {
    let row = |y: &str, m: &str, dd: &str, h: Option<&str>, mi: Option<&str>, s: Option<&str>| {
        vec![
            Some(String::from("whole")),
            Some(y.to_string()),
            Some(m.to_string()),
            Some(dd.to_string()),
            h.map(String::from),
            mi.map(String::from),
            s.map(String::from),
        ]
    };
    let rows = vec![
        row("2026", "02", "30", None, None, None),
        row("1975", "01", "01", None, None, None),
        row("2026", "04", "10", Some("9"), Some("05"), None),
    ];
    assert_eq!(timestamp_from_captures(&rows), Some(d(2026, 4, 10, 9, 5)));
    assert_eq!(stamp_of_match(&rows[0]), None);
    assert_eq!(stamp_of_match(&rows[1]), None);
    // Seconds out of range: the whole time falls back to noon.
    let r = row("2026", "04", "10", Some("9"), Some("05"), Some("75"));
    assert_eq!(stamp_of_match(&r), Some(d(2026, 4, 10, 12, 0)));
    // A match without its groups gives nothing.
    assert_eq!(stamp_of_match(&vec![Some(String::from("x"))]), None);
}

#[test]
fn integers_are_read_like_std() {
    assert_eq!(parse_u32_chars(&chars("+12")), Some(12));
    assert_eq!(parse_u32_chars(&chars("-1")), None);
    assert_eq!(parse_u32_chars(&chars("")), None);
    assert_eq!(parse_u32_chars(&chars("4294967295")), Some(u32::MAX));
    assert_eq!(parse_u32_chars(&chars("4294967296")), None);
    assert_eq!(parse_i32_chars(&chars("-2147483648")), Some(i32::MIN));
    assert_eq!(parse_i32_chars(&chars("2147483648")), None);
    assert_eq!(parse_i32_chars(&chars("-")), None);
    assert_eq!(parse_i32_chars(&chars("٢٠٢٦")), None);
    for s in ["0", "007", "+5", "-17", "12a", "99999999999"] {
        assert_eq!(parse_i32_chars(&chars(s)), s.parse::<i32>().ok());
        assert_eq!(parse_u32_chars(&chars(s)), s.parse::<u32>().ok());
    }
}

// ---------- Exif ----------

/// A big-endian TIFF structure: IFD0 with `DateTime` and a pointer to an
/// Exif IFD holding `DateTimeOriginal`.
fn tiff_with(original: &[u8; 20], modified: &[u8; 20]) -> Vec<u8> {
    let mut t: Vec<u8> = Vec::new();
    t.extend_from_slice(b"MM\x00\x2a");
    t.extend_from_slice(&8u32.to_be_bytes());
    // IFD0 at 8: two entries, then the next-IFD offset.
    t.extend_from_slice(&2u16.to_be_bytes());
    // DateTime (0x0132), ASCII (2), 20 bytes, at offset 62.
    t.extend_from_slice(&0x0132u16.to_be_bytes());
    t.extend_from_slice(&2u16.to_be_bytes());
    t.extend_from_slice(&20u32.to_be_bytes());
    t.extend_from_slice(&62u32.to_be_bytes());
    // ExifIFDPointer (0x8769), LONG (4), 1, Exif IFD at 38.
    t.extend_from_slice(&0x8769u16.to_be_bytes());
    t.extend_from_slice(&4u16.to_be_bytes());
    t.extend_from_slice(&1u32.to_be_bytes());
    t.extend_from_slice(&38u32.to_be_bytes());
    t.extend_from_slice(&0u32.to_be_bytes());
    assert_eq!(t.len(), 38);
    // Exif IFD at 38: one entry.
    t.extend_from_slice(&1u16.to_be_bytes());
    // DateTimeOriginal (0x9003), ASCII, 20 bytes, at offset 82.
    t.extend_from_slice(&0x9003u16.to_be_bytes());
    t.extend_from_slice(&2u16.to_be_bytes());
    t.extend_from_slice(&20u32.to_be_bytes());
    t.extend_from_slice(&82u32.to_be_bytes());
    t.extend_from_slice(&0u32.to_be_bytes());
    assert_eq!(t.len(), 56);
    t.extend_from_slice(&[0u8; 6]);
    assert_eq!(t.len(), 62);
    t.extend_from_slice(modified);
    t.extend_from_slice(original);
    t
}

#[test]
fn exif_date_of_the_shot_comes_first() {
    let t = tiff_with(b"2024:07:14 08:09:10\x00", b"2025:01:01 00:00:00\x00");
    assert_eq!(exif_timestamp(&t), Some(ds(2024, 7, 14, 8, 9, 10)));
    // A shot date that is blank falls back to the date of the last change.
    let t = tiff_with(b"    :  :     :  :  \x00", b"2025:01:01 00:00:00\x00");
    assert_eq!(exif_timestamp(&t), Some(ds(2025, 1, 1, 0, 0, 0)));
    // Data that is no TIFF gives nothing.
    assert_eq!(exif_timestamp(b"not exif data"), None);
}

#[test]
fn exif_text_must_be_a_plausible_date() {
    assert_eq!(stamp_of_exif_bytes(b"2016:05:04 03:02:01"), Some(ds(2016, 5, 4, 3, 2, 1)));
    assert_eq!(stamp_of_exif_bytes(b"2016:13:04 03:02:01"), None);
    assert_eq!(stamp_of_exif_bytes(b"1970:01:01 00:00:00"), None);
    assert_eq!(stamp_of_exif_bytes(b"2016-05-04 03:02:01"), None);
    assert_eq!(stamp_of_exif_bytes(b"2016:05:04"), None);
    let fields = vec![None, Some(b"2016:02:30 00:00:00".to_vec()), Some(b"2019:02:28 23:59:59".to_vec())];
    assert_eq!(timestamp_from_exif_fields(&fields), Some(ds(2019, 2, 28, 23, 59, 59)));
}

// ---------- MP4 ----------

/// Walks the atoms of an MP4 held in memory, as a caller reading a file does.
fn find_atom(data: &[u8], start: u64, end: u64, atom: &[u8; 4]) -> Option<(u64, u64, u64)> {
    let mut off = start;
    while walk_continues(off, end) {
        let at = off as usize;
        let head = data.get(at..at + 8)?;
        let mut step = scan_atom(off, end, head, None, atom);
        if step == AtomStep::NeedLarge {
            let large = data.get(at + 8..at + 16)?;
            step = scan_atom(off, end, head, Some(large), atom);
        }
        match step {
            AtomStep::Found { off, header, len } => return Some((off, header, len)),
            AtomStep::Next(next) => off = next,
            AtomStep::NeedLarge | AtomStep::Invalid => return None,
        }
    }
    None
}

fn creation_secs(data: &[u8]) -> Option<u64> {
    let (m_off, m_hs, m_len) = find_atom(data, 0, data.len() as u64, b"moov")?;
    let (start, end) = contents_of_atom(m_off, m_hs, m_len)?;
    let (v_off, v_hs, v_len) = find_atom(data, start, end, b"mvhd")?;
    let (from, _) = contents_of_atom(v_off, v_hs, v_len)?;
    let buf = data.get(from as usize..from as usize + 12)?;
    mvhd_seconds(buf)
}

fn mp4_with(secs: u32) -> Vec<u8> {
    let mut mvhd: Vec<u8> = Vec::new();
    mvhd.extend_from_slice(&20u32.to_be_bytes());
    mvhd.extend_from_slice(b"mvhd");
    mvhd.extend_from_slice(&[0, 0, 0, 0]);
    mvhd.extend_from_slice(&secs.to_be_bytes());
    mvhd.extend_from_slice(&secs.to_be_bytes());
    let mut data: Vec<u8> = Vec::new();
    data.extend_from_slice(&16u32.to_be_bytes());
    data.extend_from_slice(b"ftypisom");
    data.extend_from_slice(&[0, 0, 2, 0]);
    data.extend_from_slice(&((8 + mvhd.len()) as u32).to_be_bytes());
    data.extend_from_slice(b"moov");
    data.extend_from_slice(&mvhd);
    data
}

#[test]
fn lit_la_date_de_creation_mvhd_dun_mp4() {
    let utc = chrono::Utc.with_ymd_and_hms(2026, 4, 10, 15, 0, 0).unwrap();
    let epoch = chrono::Utc.with_ymd_and_hms(1904, 1, 1, 0, 0, 0).unwrap();
    let secs = (utc - epoch).num_seconds() as u32;
    let data = mp4_with(secs);
    let expected = stamp_of(utc.with_timezone(&chrono::Local).naive_local());
    let got = creation_secs(&data).and_then(mp4_creation_time);
    assert_eq!(got, Some(expected));
}

#[test]
fn mvhd_version_one_holds_64_bits() {
    let mut b = vec![1u8, 0, 0, 0];
    b.extend_from_slice(&0x0000_0000_e000_0000u64.to_be_bytes());
    assert_eq!(mvhd_seconds(&b), Some(0xe000_0000));
    let zero = [0u8; 12];
    assert_eq!(mvhd_seconds(&zero), None);
    // Far in the future: nothing, whatever the time zone.
    assert_eq!(mp4_creation_time(u64::MAX), None);
    // Before 1980: not plausible.
    assert_eq!(mp4_creation_time(3600), None);
    assert_eq!(mp4_date_from_local(Some(d(1979, 12, 31, 23, 59))), None);
    assert_eq!(mp4_date_from_local(Some(d(2000, 1, 1, 0, 0))), Some(d(2000, 1, 1, 0, 0)));
}

#[test]
fn atom_walk_handles_odd_sizes() {
    // 64-bit size announced: the 8 following bytes are needed.
    let mut head = 1u32.to_be_bytes().to_vec();
    head.extend_from_slice(b"free");
    assert_eq!(scan_atom(0, 100, &head, None, b"moov"), AtomStep::NeedLarge);
    let large = 24u64.to_be_bytes();
    assert_eq!(scan_atom(0, 100, &head, Some(&large), b"moov"), AtomStep::Next(24));
    // A size smaller than the header cannot be walked over.
    let mut small = 4u32.to_be_bytes().to_vec();
    small.extend_from_slice(b"free");
    assert_eq!(scan_atom(0, 100, &small, None, b"moov"), AtomStep::Invalid);
    // Size 0: up to the end.
    let mut zero = 0u32.to_be_bytes().to_vec();
    zero.extend_from_slice(b"moov");
    assert_eq!(
        scan_atom(10, 100, &zero, None, b"moov"),
        AtomStep::Found { off: 10, header: 8, len: 90 }
    );
    // Past the largest offset, the walk stops.
    let mut huge = 1u32.to_be_bytes().to_vec();
    huge.extend_from_slice(b"free");
    let l = u64::MAX.to_be_bytes();
    assert_eq!(scan_atom(8, 100, &huge, Some(&l), b"moov"), AtomStep::Invalid);
    assert!(!walk_continues(95, 100));
    assert!(walk_continues(92, 100));
    assert_eq!(contents_of_atom(u64::MAX - 4, 8, 8), None);
}

// ---------- choosing the date ----------

#[test]
fn ignore_une_date_interne_posterieure_aux_dates_du_fichier() {
    let lying = ds(2026, 8, 3, 15, 21, 16);
    let real = d(2025, 4, 30, 19, 21);
    assert_eq!(choose_timestamp("mp4", None, Some(lying), real), (real, TsSource::Meta));
    // With a date in the name, the name wins over the lying metadata.
    let named = d(2025, 4, 30, 12, 0);
    assert_eq!(choose_timestamp("mov", Some(named), Some(lying), real), (named, TsSource::Name));
    // A consistent date (at most a day after the file's) is kept.
    let copied = d(2026, 9, 1, 10, 0);
    assert_eq!(choose_timestamp("mp4", None, Some(lying), copied), (lying, TsSource::Meta));
    let next_day = ds(2026, 9, 2, 10, 0, 0);
    assert_eq!(choose_timestamp("mp4", None, Some(next_day), copied), (next_day, TsSource::Meta));
    let later = ds(2026, 9, 2, 10, 0, 1);
    assert_eq!(choose_timestamp("mp4", None, Some(later), copied), (copied, TsSource::Meta));
}

#[test]
fn date_sources_in_order() {
    let fs = d(2025, 1, 2, 3, 4);
    let exif = d(2024, 5, 6, 7, 8);
    let name = d(2023, 1, 1, 12, 0);
    assert_eq!(choose_timestamp("jpg", Some(name), Some(exif), fs), (exif, TsSource::Meta));
    assert_eq!(choose_timestamp("jpg", Some(name), None, fs), (name, TsSource::Name));
    assert_eq!(choose_timestamp("jpg", None, None, fs), (fs, TsSource::FsDate));
    // Metadata of other kinds of files is not read.
    assert_eq!(choose_timestamp("mkv", None, Some(exif), fs), (fs, TsSource::FsDate));
    assert_eq!(
        timestamp_for(Some("VID-20260410-WA0007.mkv"), "mkv", None, fs),
        (d(2026, 4, 10, 12, 0), TsSource::Name)
    );
    assert_eq!(timestamp_for(None, "mkv", None, fs), (fs, TsSource::FsDate));
}

#[test]
fn file_dates_earliest_plausible() {
    let a = d(2020, 1, 1, 0, 0);
    let b = d(2019, 6, 1, 0, 0);
    let old = d(1970, 1, 1, 0, 0);
    assert_eq!(earliest_plausible(&vec![a, b, old]), Some(b));
    assert_eq!(earliest_plausible(&vec![old]), None);
    assert_eq!(earliest_plausible(&vec![]), None);
    // From instants: compared with chrono's own conversion.
    let t = 1_700_000_000i64;
    let expected = stamp_of(
        chrono::DateTime::from_timestamp(t, 0).unwrap().with_timezone(&chrono::Local).naive_local(),
    );
    assert_eq!(fs_timestamp(Some((t, 0)), Some((t + 100, 0))), expected);
    assert_eq!(fs_timestamp(Some((t + 100, 0)), Some((t, 0))), expected);
    // Nothing plausible: the present moment, which exists.
    let now = fs_timestamp(None, Some((0, 0)));
    assert!(now.year >= 2024);
}

#[test]
fn stamps_must_exist() {
    assert_eq!(Stamp::from_parts(2024, 2, 29, 23, 59, 59, 0), Some(ds(2024, 2, 29, 23, 59, 59)));
    assert_eq!(Stamp::from_parts(2023, 2, 29, 0, 0, 0, 0), None);
    assert_eq!(Stamp::from_parts(1900, 2, 29, 0, 0, 0, 0), None);
    assert_eq!(Stamp::from_parts(2000, 2, 29, 0, 0, 0, 0), Some(d(2000, 2, 29, 0, 0)));
    assert_eq!(Stamp::from_parts(2023, 1, 1, 24, 0, 0, 0), None);
    assert_eq!(Stamp::from_parts(2023, 4, 31, 0, 0, 0, 0), None);
    assert_eq!(Stamp::from_parts(2023, 1, 1, 0, 0, 0, 1_000_000_000), None);
    assert!(d(-262143, 1, 1, 0, 0).is_valid());
    assert!(!d(262143, 1, 1, 0, 0).is_valid());
    let last = d(2026, 12, 31, 10, 0);
    assert_eq!(last.plus_one_day(), d(2027, 1, 1, 10, 0));
    assert_eq!(d(2024, 2, 28, 1, 2).plus_one_day(), d(2024, 2, 29, 1, 2));
}

#[test]
fn ignore_une_date_interne_reecrite_apres_coup() {
    // mvhd claims "now" (recent), the file dates from April 2025.
    let lying_utc = chrono::Utc.with_ymd_and_hms(2026, 8, 3, 13, 21, 16).unwrap();
    let epoch = chrono::Utc.with_ymd_and_hms(1904, 1, 1, 0, 0, 0).unwrap();
    let secs = (lying_utc - epoch).num_seconds() as u32;
    let data = mp4_with(secs);
    let meta = creation_secs(&data).and_then(mp4_creation_time);
    let real = d(2025, 4, 30, 19, 21);
    let (ts, _) = timestamp_for(Some("225BFAB1.MP4"), "mp4", meta, real);
    assert_eq!(ts, real, "la date interne réécrite doit être ignorée");

    // …but a consistent internal date (not after the file's) comes first.
    let copied_later = d(2026, 9, 1, 10, 0);
    let (ts2, _) = timestamp_for(Some("honest.mp4"), "mp4", meta, copied_later);
    assert_eq!(ts2, stamp_of(lying_utc.with_timezone(&chrono::Local).naive_local()));
}

#[test]
fn file_date_is_the_earliest_plausible_else_now() {
    let now = d(2030, 1, 1, 0, 0);
    let m = d(2021, 5, 6, 7, 8);
    let c = d(2020, 5, 6, 7, 8);
    assert_eq!(fs_date_from(&vec![m, c], now), c);
    assert_eq!(fs_date_from(&vec![c, m], now), c);
    assert_eq!(fs_date_from(&vec![m, d(1970, 1, 1, 0, 0)], now), m);
    assert_eq!(fs_date_from(&vec![d(1970, 1, 1, 0, 0)], now), now);
    assert_eq!(fs_date_from(&vec![], now), now);
}

#[test]
fn exif_field_text_is_its_first_string() {
    let t = tiff_with(b"2024:07:14 08:09:10\x00", b"2025:01:01 00:00:00\x00");
    assert_eq!(ascii_field(&t, DateTag::Original), Some(b"2024:07:14 08:09:10".to_vec()));
    assert_eq!(ascii_field(&t, DateTag::Modified), Some(b"2025:01:01 00:00:00".to_vec()));
    assert_eq!(ascii_field(&t, DateTag::Digitized), None);
    assert_eq!(ascii_field(b"not exif data", DateTag::Original), None);
}
