use flash::adopt::library_adoption;
use flash::library::Index;
use flash::naming::{is_managed_rel, morceau, segment_correspond, suit_structure, target_rel};
use flash::NameFormat;
use flash::Stamp;

fn at(y: i32, mo: u32, da: u32, h: u32, mi: u32) -> Stamp {
    Stamp { year: y, month: mo, day: da, hour: h, minute: mi, second: 0, nano: 0 }
}

fn strings(v: &[&str]) -> Vec<String> {
    v.iter().map(|s| s.to_string()).collect()
}

fn format(elements: &[&str], dossiers: &[&str], motcle: &str, styles: &[(&str, &str)], sep: &str) -> NameFormat {
    NameFormat {
        elements: strings(elements),
        dossiers: strings(dossiers),
        motcle: motcle.to_string(),
        styles: styles.iter().map(|(a, b)| (a.to_string(), b.to_string())).collect(),
        separateur: sep.to_string(),
    }
}

fn text(v: Option<Vec<char>>) -> Option<String> {
    v.map(|c| c.into_iter().collect())
}

#[test]
fn default_format_paths() {
    let f = NameFormat::default();
    assert_eq!(target_rel(&at(2026, 4, 10, 9, 0), 1, "jpg", &f, false), "2026/avril/10 avril 1.jpg");
    assert_eq!(target_rel(&at(2026, 3, 5, 12, 0), 12, "mp4", &f, true), "2026/mars/5 mars 12.mp4");
    assert_eq!(target_rel(&at(2025, 8, 15, 0, 0), 2, "heic", &f, false), "2025/août/15 août 2.heic");
}

#[test]
fn folders_and_names_never_end_with_a_dot() {
    let f = format(&["jour", "mois"], &["annee", "mois"], "", &[("mois", "avr")], " ");
    assert_eq!(target_rel(&at(2026, 4, 10, 9, 0), 1, "jpg", &f, false), "2026/avr/10 avr.jpg");
    // With the number forced, it comes last.
    assert_eq!(target_rel(&at(2026, 4, 10, 9, 0), 3, "jpg", &f, true), "2026/avr/10 avr. 3.jpg");
    assert_eq!(target_rel(&at(2026, 5, 1, 9, 0), 1, "jpg", &f, false), "2026/mai/1 mai.jpg");
}

#[test]
fn styles_separator_keyword_and_hour() {
    let f = format(
        &["annee", "mois", "jour", "heure", "motcle"],
        &["motcle", "annee", "numero"],
        "  Vacances/été: ",
        &[("mois", "04"), ("jour", "05"), ("annee", "26")],
        "_",
    );
    assert_eq!(
        target_rel(&at(2026, 4, 9, 7, 5), 4, "png", &f, true),
        "Vacancesété/26/26_04_09_07h05_Vacancesété_4.png"
    );
    // An unknown separator is a space; an empty keyword leaves no piece.
    let g = format(&["jour", "motcle", "mois"], &[], "", &[("mois", "4")], "+");
    assert_eq!(target_rel(&at(2026, 4, 9, 7, 5), 1, "jpg", &g, false), "9 4.jpg");
    // No piece at all: day and month.
    let h = format(&["inconnu"], &["annee"], "", &[], " ");
    assert_eq!(target_rel(&at(2026, 12, 31, 0, 0), 1, "jpg", &h, false), "2026/31 décembre.jpg");
}

#[test]
fn pieces_of_a_name() {
    let f = format(&[], &[], " x ", &[("jour", "05")], " ");
    let t = at(2026, 1, 2, 3, 4);
    assert_eq!(text(morceau(&t, "jour", &f, 1)), Some("02".to_string()));
    assert_eq!(text(morceau(&t, "mois", &f, 1)), Some("janvier".to_string()));
    assert_eq!(text(morceau(&t, "annee", &f, 1)), Some("2026".to_string()));
    assert_eq!(text(morceau(&t, "heure", &f, 1)), Some("03h04".to_string()));
    assert_eq!(text(morceau(&t, "numero", &f, 17)), Some("17".to_string()));
    assert_eq!(text(morceau(&t, "motcle", &f, 1)), Some("x".to_string()));
    assert_eq!(text(morceau(&t, "autre", &f, 1)), None);
}

#[test]
fn folder_segments_of_the_format() {
    let f = NameFormat::default();
    assert!(segment_correspond("2026", "annee", &f));
    assert!(!segment_correspond("26", "annee", &f));
    assert!(segment_correspond("avril", "mois", &f));
    assert!(!segment_correspond("avr", "mois", &f));
    assert!(segment_correspond("7", "jour", &f));
    assert!(!segment_correspond("123", "jour", &f));
    assert!(segment_correspond("09h30", "heure", &f));
    assert!(!segment_correspond("9h30", "heure", &f));
    assert!(!segment_correspond("x", "motcle", &f));
    let g = format(&[], &[], "Fête", &[("mois", "avr"), ("annee", "26")], " ");
    assert!(segment_correspond("avr", "mois", &g));
    assert!(segment_correspond("mai", "mois", &g));
    assert!(!segment_correspond("avr.", "mois", &g));
    assert!(segment_correspond("26", "annee", &g));
    assert!(segment_correspond("Fête", "motcle", &g));
    let h = format(&[], &[], "", &[("mois", "04")], " ");
    assert!(segment_correspond("04", "mois", &h));
    assert!(segment_correspond("12", "mois", &h));
    assert!(!segment_correspond("13", "mois", &h));
    assert!(!segment_correspond("0", "mois", &h));
}

#[test]
fn structure_of_relative_paths() {
    let f = NameFormat::default();
    assert!(suit_structure(&strings(&["2026", "avril", "10 avril 1.jpg"]), &f));
    assert!(!suit_structure(&strings(&["vrac", "20260410_090000.jpg"]), &f));
    assert!(!suit_structure(&strings(&["2026", "avril"]), &f));
    let n = format(&[], &["numero", "annee"], "", &[], " ");
    assert!(suit_structure(&strings(&["2026", "x.jpg"]), &n));
    assert!(is_managed_rel(&strings(&["à vérifier", "x.jpg"])));
    assert!(is_managed_rel(&strings(&["2026", "mars", "x.jpg"])));
    assert!(!is_managed_rel(&strings(&["2026", "mars"])));
    assert!(!is_managed_rel(&strings(&["vrac", "mars", "x.jpg"])));
}

#[test]
fn written_paths_are_recognised_again() {
    let ts = at(2026, 4, 10, 9, 30);
    let formats = vec![
        NameFormat::default(),
        format(&["jour", "mois", "numero"], &["annee", "mois", "jour", "heure", "motcle"], " Fête ", &[("mois", "avr"), ("annee", "26"), ("jour", "05")], "_"),
        format(&["motcle"], &["numero", "mois", "annee"], "", &[("mois", "04")], "-"),
        format(&[], &["mois"], "", &[("mois", "4")], "."),
    ];
    for f in &formats {
        let path = target_rel(&ts, 3, "jpg", f, true);
        let comps: Vec<String> = path.split('/').map(|s| s.to_string()).collect();
        assert!(suit_structure(&comps, f), "{}", path);
        assert!(comps.last().unwrap().ends_with(".jpg"));
    }
    let g = &formats[1];
    assert_eq!(target_rel(&ts, 3, "jpg", g, true), "26/avr/10/09h30/Fête/10_avr._3.jpg");
}

#[test]
fn written_folders_are_recognised_by_their_token() {
    let ts = at(1999, 12, 5, 23, 7);
    let styles: Vec<Vec<(&str, &str)>> = vec![
        vec![],
        vec![("mois", "avr"), ("annee", "26"), ("jour", "05")],
        vec![("mois", "04")],
        vec![("mois", "4")],
    ];
    for st in &styles {
        let f = format(&[], &[], "Noël", st, " ");
        for token in ["annee", "mois", "jour", "heure", "motcle"] {
            let p: String = morceau(&ts, token, &f, 1).unwrap().into_iter().collect();
            let t = p.trim_end_matches('.');
            assert!(segment_correspond(t, token, &f), "{} {}", token, p);
        }
    }
}

#[test]
fn placed_files_are_adopted_back() {
    let f = NameFormat::default();
    let ts = at(2026, 4, 10, 9, 0);
    let path = target_rel(&ts, 2, "jpg", &f, false);
    let comps: Vec<String> = path.split('/').map(|s| s.to_string()).collect();
    assert_eq!(library_adoption(&comps, &Index::empty(), &f), Some(path.clone()));
    let txt = target_rel(&ts, 2, "txt", &f, false);
    let comps: Vec<String> = txt.split('/').map(|s| s.to_string()).collect();
    assert_eq!(library_adoption(&comps, &Index::empty(), &f), None);
}
