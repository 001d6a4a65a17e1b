use flash::apply::Run;
use flash::indexfile::{index_from_records, IndexRecord};
use flash::library::{Index, IndexEntry, NewEntry, Rec, TsSource};
use flash::plan::{plan, Origin, Plan};
use flash::NameFormat;
use flash::Stamp;

fn at(y: i32, mo: u32, da: u32, h: u32, mi: u32) -> Stamp {
    Stamp { year: y, month: mo, day: da, hour: h, minute: mi, second: 0, nano: 0 }
}

fn entry(id: usize, name: &str, ts: Stamp, size: u64, hash: &str, source: TsSource) -> NewEntry {
    let ext = name.rsplit('.').next().unwrap_or("").to_lowercase();
    NewEntry { source_id: id, name: name.to_string(), ext, ts, size, hash: hash.to_string(), source }
}

fn copies(p: &Plan) -> Vec<(usize, String, bool)> {
    p.copies.iter().map(|c| (c.source_id, c.to.clone(), c.review)).collect()
}

fn renames(p: &Plan) -> Vec<(String, String)> {
    p.renames.iter().map(|r| (r.from.clone(), r.to.clone())).collect()
}

/// Carries out a plan as if every rename and copy succeeded, and gives
/// back the summary and the index that would be saved.
fn apply_all(p: Plan) -> (flash::Summary, Index) {
    let renames = p.renames.len();
    let mut cs = Vec::new();
    let Plan { renames: rs, copies: c, index, healed, duplicates, updated } = p;
    for x in c {
        cs.push(x);
    }
    let mut run = Run::start(Plan { renames: rs, copies: Vec::new(), index, healed, duplicates, updated }, Vec::new());
    for _ in 0..renames {
        run.rename_done();
    }
    for c in cs {
        run.copy_done(c);
    }
    let (summary, mut records, _) = run.finish();
    records.sort_by(|a, b| a.rel.cmp(&b.rel));
    (summary, index_from_records(&records).unwrap())
}

fn rels(index: &Index) -> Vec<String> {
    index.entries().iter().map(|e| e.rel.clone()).collect()
}

#[test]
fn numerote_par_heure_puis_renumerote() {
    let f = NameFormat::default();
    let lot1 = vec![
        entry(0, "IMG_20260410_090000.jpg", at(2026, 4, 10, 9, 0), 6, "aa", TsSource::Name),
        entry(1, "VID_20260410_170000.mp4", at(2026, 4, 10, 17, 0), 6, "bb", TsSource::Name),
        entry(2, "20260305_120000.jpg", at(2026, 3, 5, 12, 0), 6, "cc", TsSource::Name),
    ];
    let p1 = plan(&Index::empty(), &lot1, &f, &vec![]);
    assert_eq!(
        copies(&p1),
        vec![
            (2, "2026/mars/5 mars 1.jpg".to_string(), false),
            (0, "2026/avril/10 avril 1.jpg".to_string(), false),
            (1, "2026/avril/10 avril 2.mp4".to_string(), false),
        ]
    );
    assert!(p1.renames.is_empty());
    let (s1, index) = apply_all(p1);
    assert_eq!(s1.imported, 3);
    assert_eq!(
        rels(&index),
        vec!["2026/avril/10 avril 1.jpg", "2026/avril/10 avril 2.mp4", "2026/mars/5 mars 1.jpg"]
    );

    // A photo at noon comes between the two; a duplicate is left out.
    let lot2 = vec![
        entry(0, "20260410_120000.jpg", at(2026, 4, 10, 12, 0), 6, "dd", TsSource::Name),
        entry(1, "dup_20260410_090000.jpg", at(2026, 4, 10, 9, 0), 6, "aa", TsSource::Name),
    ];
    let p2 = plan(&index, &lot2, &f, &vec![]);
    assert_eq!(p2.duplicates, 1);
    assert_eq!(p2.updated, 0);
    assert_eq!(copies(&p2), vec![(0, "2026/avril/10 avril 2.jpg".to_string(), false)]);
    assert_eq!(
        renames(&p2),
        vec![("2026/avril/10 avril 2.mp4".to_string(), "2026/avril/10 avril 3.mp4".to_string())]
    );
    let (s2, index2) = apply_all(p2);
    assert_eq!((s2.imported, s2.duplicates, s2.renamed), (1, 1, 1));
    assert_eq!(
        rels(&index2),
        vec![
            "2026/avril/10 avril 1.jpg",
            "2026/avril/10 avril 2.jpg",
            "2026/avril/10 avril 3.mp4",
            "2026/mars/5 mars 1.jpg"
        ]
    );

    // An older photo renumbers the whole day.
    let lot3 = vec![entry(0, "20260410_073000.jpg", at(2026, 4, 10, 7, 30), 6, "ee", TsSource::Name)];
    let p3 = plan(&index2, &lot3, &f, &vec![]);
    assert_eq!(copies(&p3), vec![(0, "2026/avril/10 avril 1.jpg".to_string(), false)]);
    assert_eq!(
        renames(&p3),
        vec![
            ("2026/avril/10 avril 1.jpg".to_string(), "2026/avril/10 avril 2.jpg".to_string()),
            ("2026/avril/10 avril 2.jpg".to_string(), "2026/avril/10 avril 3.jpg".to_string()),
            ("2026/avril/10 avril 3.mp4".to_string(), "2026/avril/10 avril 4.mp4".to_string()),
        ]
    );
}

#[test]
fn meme_heure_ordre_du_nom_dorigine() {
    let f = NameFormat::default();
    let lot = vec![
        entry(0, "IMG-20260410-WA0013.jpg", at(2026, 4, 10, 12, 0), 5, "b", TsSource::Name),
        entry(1, "IMG-20260410-WA0012.jpg", at(2026, 4, 10, 12, 0), 5, "a", TsSource::Name),
    ];
    let p = plan(&Index::empty(), &lot, &f, &vec![]);
    assert_eq!(
        copies(&p),
        vec![
            (1, "2026/avril/10 avril 1.jpg".to_string(), false),
            (0, "2026/avril/10 avril 2.jpg".to_string(), false),
        ]
    );
}

#[test]
fn homonymes_numerotes_doffice() {
    // Without a number in the name, a second file of the day takes the
    // first free forced number after its own.
    let f = NameFormat {
        elements: vec!["jour".to_string(), "mois".to_string()],
        dossiers: vec!["annee".to_string()],
        motcle: String::new(),
        styles: Vec::new(),
        separateur: " ".to_string(),
    };
    let lot = vec![
        entry(0, "a.jpg", at(2026, 4, 10, 8, 0), 5, "a", TsSource::Meta),
        entry(1, "b.jpg", at(2026, 4, 10, 9, 0), 5, "b", TsSource::Meta),
        entry(2, "c.jpg", at(2026, 4, 10, 10, 0), 5, "c", TsSource::Meta),
    ];
    let p = plan(&Index::empty(), &lot, &f, &vec![]);
    assert_eq!(
        copies(&p),
        vec![
            (0, "2026/10 avril.jpg".to_string(), false),
            (1, "2026/10 avril 3.jpg".to_string(), false),
            (2, "2026/10 avril 4.jpg".to_string(), false),
        ]
    );
}

#[test]
fn zone_de_triage_puis_sortie_a_larrivee_de_la_date() {
    let f = NameFormat::default();
    let lot1 = vec![entry(0, "video.mkv", at(2025, 1, 2, 3, 4), 5, "xx", TsSource::FsDate)];
    let p1 = plan(&Index::empty(), &lot1, &f, &vec![]);
    assert_eq!(copies(&p1), vec![(0, "à vérifier/video.mkv".to_string(), true)]);
    let (s1, index) = apply_all(p1);
    assert_eq!(s1.imported, 0);
    assert_eq!(s1.uncertain, vec!["video.mkv".to_string()]);

    // The same file again: a duplicate, nothing copied.
    let p1b = plan(&index, &lot1, &f, &vec![]);
    assert_eq!(p1b.duplicates, 1);
    assert!(p1b.copies.is_empty());
    assert!(p1b.renames.is_empty());

    // The same content with its date in the name: it leaves the triage folder.
    let lot2 = vec![entry(0, "VID-20260410-WA0007.mkv", at(2026, 4, 10, 12, 0), 5, "xx", TsSource::Name)];
    let p2 = plan(&index, &lot2, &f, &vec![]);
    assert_eq!((p2.duplicates, p2.updated), (1, 1));
    assert!(p2.copies.is_empty());
    assert_eq!(
        renames(&p2),
        vec![("à vérifier/video.mkv".to_string(), "2026/avril/10 avril 1.mkv".to_string())]
    );
    let (_, index2) = apply_all(p2);
    assert_eq!(rels(&index2), vec!["2026/avril/10 avril 1.mkv"]);
    assert_eq!(index2.entries()[0].rec.ts, at(2026, 4, 10, 12, 0));
}

#[test]
fn triage_gere_les_homonymes_et_le_disque() {
    let f = NameFormat::default();
    let lot = vec![
        entry(0, "photo.jpg", at(2025, 1, 2, 3, 4), 9, "un", TsSource::FsDate),
        entry(1, "photo.jpg", at(2025, 3, 4, 5, 6), 11, "deux", TsSource::FsDate),
        entry(2, "sans_point", at(2025, 3, 4, 5, 6), 12, "trois", TsSource::FsDate),
    ];
    let p = plan(&Index::empty(), &lot, &f, &vec![]);
    assert_eq!(
        copies(&p),
        vec![
            (0, "à vérifier/photo.jpg".to_string(), true),
            (1, "à vérifier/photo 2.jpg".to_string(), true),
            (2, "à vérifier/sans_point".to_string(), true),
        ]
    );
    let on_disk = vec!["à vérifier/photo.jpg".to_string(), "à vérifier/sans_point".to_string()];
    let q = plan(&Index::empty(), &lot, &f, &on_disk);
    assert_eq!(
        copies(&q),
        vec![
            (0, "à vérifier/photo 2.jpg".to_string(), true),
            (1, "à vérifier/photo 3.jpg".to_string(), true),
            (2, "à vérifier/sans_point 2".to_string(), true),
        ]
    );
}

#[test]
fn doublons_dans_le_meme_lot() {
    let f = NameFormat::default();
    let lot = vec![
        entry(0, "a.jpg", at(2025, 1, 2, 3, 4), 9, "h", TsSource::Meta),
        entry(1, "b.jpg", at(2024, 1, 2, 3, 4), 9, "h", TsSource::Meta),
        entry(2, "c.jpg", at(2024, 1, 2, 3, 4), 10, "h", TsSource::Meta),
    ];
    let p = plan(&Index::empty(), &lot, &f, &vec![]);
    assert_eq!(p.duplicates, 1);
    // A duplicate within the batch corrects nothing.
    assert_eq!(p.updated, 0);
    assert_eq!(
        copies(&p),
        vec![
            (2, "2024/janvier/2 janvier 1.jpg".to_string(), false),
            (0, "2025/janvier/2 janvier 1.jpg".to_string(), false),
        ]
    );
}

#[test]
fn fichier_de_triage_reste_sans_date_fiable() {
    let f = NameFormat::default();
    let entries = vec![
        IndexEntry {
            rel: "2026/avril/10 avril 1.jpg".to_string(),
            rec: Rec { ts: at(2026, 4, 10, 9, 0), size: 1, hash: "p".to_string(), original: "p.jpg".to_string() },
        },
        IndexEntry {
            rel: "à vérifier/x.jpg".to_string(),
            rec: Rec { ts: at(2020, 1, 1, 0, 0), size: 2, hash: "q".to_string(), original: "x.jpg".to_string() },
        },
    ];
    let index = Index::from_entries(entries).unwrap();
    // A duplicate of the triage file without a reliable date changes nothing.
    let lot = vec![entry(0, "x2.jpg", at(2021, 1, 1, 0, 0), 2, "q", TsSource::FsDate)];
    let p = plan(&index, &lot, &f, &vec![]);
    assert_eq!((p.duplicates, p.updated), (1, 0));
    assert!(p.renames.is_empty() && p.copies.is_empty());
    let (_, after) = apply_all(p);
    assert_eq!(rels(&after), vec!["2026/avril/10 avril 1.jpg", "à vérifier/x.jpg"]);
}

#[test]
fn index_paths_must_be_in_order() {
    let e = |rel: &str| IndexEntry {
        rel: rel.to_string(),
        rec: Rec { ts: at(2026, 1, 1, 0, 0), size: 1, hash: "h".to_string(), original: "o".to_string() },
    };
    assert!(Index::from_entries(vec![e("b"), e("a")]).is_none());
    assert!(Index::from_entries(vec![e("a"), e("a")]).is_none());
    assert!(Index::from_entries(vec![e("a"), e("b")]).is_some());
    let bad = IndexEntry {
        rel: "c".to_string(),
        rec: Rec { ts: at(2026, 2, 30, 0, 0), size: 1, hash: "h".to_string(), original: "o".to_string() },
    };
    assert!(Index::from_entries(vec![e("a"), bad]).is_none());
    let mut idx = Index::from_entries(vec![e("a"), e("c")]).unwrap();
    assert!(idx.contains("c") && !idx.contains("b"));
    idx.insert("b".to_string(), Rec { ts: at(2026, 1, 2, 0, 0), size: 3, hash: "z".to_string(), original: "b".to_string() });
    assert_eq!(rels(&idx), vec!["a", "b", "c"]);
    let records = vec![
        IndexRecord { rel: "a".to_string(), ts: 0, size: 1, hash: "h".to_string(), original: "o".to_string() },
        IndexRecord { rel: "b".to_string(), ts: i64::MAX, size: 1, hash: "h".to_string(), original: "o".to_string() },
    ];
    // A date out of range is dropped when loading.
    let loaded = index_from_records(&records).unwrap();
    assert_eq!(rels(&loaded), vec!["a"]);
    assert_eq!(loaded.entries()[0].rec.ts, at(1970, 1, 1, 0, 0));
    let _ = Origin::New(0);
}

#[test]
fn second_run_of_the_same_batch_imports_nothing() {
    let f = NameFormat::default();
    let lot = vec![
        entry(0, "IMG_20260410_090000.jpg", at(2026, 4, 10, 9, 0), 6, "aa", TsSource::Name),
        entry(1, "copie.jpg", at(2026, 4, 10, 9, 0), 6, "aa", TsSource::Name),
        entry(2, "sans_date.jpg", at(2024, 1, 2, 3, 4), 7, "bb", TsSource::FsDate),
        entry(3, "20260305_120000.jpg", at(2026, 3, 5, 12, 0), 8, "cc", TsSource::Name),
    ];
    let p1 = plan(&Index::empty(), &lot, &f, &vec![]);
    let (s1, after1) = apply_all(p1);
    assert_eq!((s1.imported, s1.duplicates, s1.uncertain.len()), (2, 1, 1));
    assert!(s1.errors.is_empty());
    let p2 = plan(&after1, &lot, &f, &vec![]);
    assert!(p2.copies.is_empty());
    assert_eq!(p2.duplicates, lot.len());
    let (s2, after2) = apply_all(p2);
    assert_eq!((s2.imported, s2.duplicates, s2.uncertain.len()), (0, 4, 0));
    assert_eq!(s2.duplicates, s1.imported + s1.duplicates + s1.uncertain.len());
    assert_eq!(rels(&after2), rels(&after1));
}
