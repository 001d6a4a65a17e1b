use flash::adopt::{is_hidden, left_out_of_scan, library_adoption, rel_of_components, review_adoption};
use flash::apply::{Progress, Run};
use flash::fingerprint::{fingerprint, reads_for};
use flash::indexfile::{index_from_records, index_name, records_of};
use flash::library::{Index, IndexEntry, Rec};
use flash::media::{ext_of_path, file_name_of, is_image, is_media, is_mp4_like};
use flash::plan::{CopyPlan, Plan, RenamePlan};
use flash::strmap::{StrMap, Table};
use flash::NameFormat;
use flash::Stamp;

fn at(y: i32, mo: u32, da: u32, h: u32, mi: u32) -> Stamp {
    Stamp { year: y, month: mo, day: da, hour: h, minute: mi, second: 0, nano: 0 }
}

fn strings(v: &[&str]) -> Vec<String> {
    v.iter().map(|s| s.to_string()).collect()
}

#[test]
fn fingerprint_of_head_tail_and_size() {
    assert_eq!(fingerprint(b"abc", None, 3), "99bdd81005eaa37fa71ff0787cd1d65f63d3d293");
    assert_eq!(fingerprint(b"", None, 0), "b6589fc6ab0dc82cf12099d1c2d40ab994e8410c");
    let head = vec![b'x'; 262144];
    let tail = vec![b'y'; 262144];
    assert_eq!(
        fingerprint(&head, Some(&tail), 600000),
        "c9ec9ab582f63cefb9d4987b8b44e20785768fd6"
    );
    // The size counts: same bytes, other size, other fingerprint.
    assert_ne!(fingerprint(b"abc", None, 4), fingerprint(b"abc", None, 3));
    assert_eq!(reads_for(3), (3, None));
    assert_eq!(reads_for(262144), (262144, None));
    assert_eq!(reads_for(600000), (262144, Some(600000 - 262144)));
}

#[test]
fn extensions_of_paths() {
    assert_eq!(ext_of_path("a/b/IMG_0001.JPG"), "jpg");
    assert_eq!(ext_of_path("archive.tar.GZ"), "gz");
    assert_eq!(ext_of_path(".hidden"), "");
    assert_eq!(ext_of_path("noext"), "");
    assert_eq!(ext_of_path("a/b.d/"), "d");
    assert_eq!(ext_of_path("x/.."), "");
    assert_eq!(ext_of_path("x/y.png/."), "png");
    assert_eq!(ext_of_path("VIDÉO.MOV"), "mov");
    assert_eq!(file_name_of("a//b.jpg/"), Some("b.jpg".to_string()));
    assert_eq!(file_name_of("/"), None);
    assert!(is_image("heic") && !is_image("mp4"));
    assert!(is_media("m2ts") && is_media("rw2") && !is_media("txt") && !is_media("JPG"));
    assert!(is_mp4_like("3gp") && !is_mp4_like("mkv"));
}

fn small_index() -> Index {
    let e = |rel: &str| IndexEntry {
        rel: rel.to_string(),
        rec: Rec { ts: at(2026, 4, 10, 9, 0), size: 1, hash: "h".to_string(), original: "o".to_string() },
    };
    Index::from_entries(vec![e("2026/avril/10 avril 1.jpg"), e("à vérifier/déjà.jpg")]).unwrap()
}

#[test]
fn adoption_of_files_missing_from_the_index() {
    let idx = small_index();
    let f = NameFormat::default();
    assert_eq!(review_adoption("photo.jpg", &idx), Some("à vérifier/photo.jpg".to_string()));
    assert_eq!(review_adoption("déjà.jpg", &idx), None);
    assert_eq!(review_adoption(".DS_Store", &idx), None);
    assert_eq!(review_adoption("notes.txt", &idx), None);
    assert_eq!(
        library_adoption(&strings(&["2026", "avril", "10 avril 2.mp4"]), &idx, &f),
        Some("2026/avril/10 avril 2.mp4".to_string())
    );
    assert_eq!(library_adoption(&strings(&["2026", "avril", "10 avril 1.jpg"]), &idx, &f), None);
    assert_eq!(library_adoption(&strings(&["vrac", "a.jpg"]), &idx, &f), None);
    assert_eq!(library_adoption(&strings(&["2026", "avril", "x.txt"]), &idx, &f), None);
    assert_eq!(rel_of_components(&strings(&["a", "b\\c"])), "a/b/c");
    assert!(is_hidden(".git") && !is_hidden("a.b"));
}

#[test]
fn files_already_managed_are_left_out_of_the_scan() {
    let idx = small_index();
    let f = NameFormat::default();
    assert!(left_out_of_scan(&strings(&["2026", "avril", "10 avril 1.jpg"]), &idx, &f));
    assert!(left_out_of_scan(&strings(&["2025", "mai", "x.jpg"]), &idx, &f));
    assert!(left_out_of_scan(&strings(&["à vérifier", "y.jpg"]), &idx, &f));
    assert!(left_out_of_scan(&strings(&["2025", "mai", "sub", "x.jpg"]), &idx, &f));
    assert!(!left_out_of_scan(&strings(&["vrac", "20260410_090000.jpg"]), &idx, &f));
    assert!(!left_out_of_scan(&strings(&["2025", "x.jpg"]), &idx, &f));
}

#[test]
fn maps_keyed_by_text() {
    let mut m: StrMap<u32> = StrMap::new();
    m.insert("a".to_string(), 1);
    m.insert("bb".to_string(), 2);
    m.insert("a".to_string(), 3);
    assert_eq!(m.get("a"), Some(&3));
    assert!(m.contains("bb") && !m.contains("b"));
    m.remove("bb");
    assert!(!m.contains("bb"));
    let mut t: Table<u32> = Table::new();
    t.insert("x".to_string(), 1);
    t.insert("y".to_string(), 2);
    t.insert("x".to_string(), 5);
    t.remove("y");
    assert_eq!(t.get("x"), Some(&5));
    assert_eq!(t.into_entries(), vec![("x".to_string(), 5)]);
}

#[test]
fn index_records_round_trip() {
    let rec = |ts: Stamp| Rec { ts, size: 7, hash: "f00".to_string(), original: "o.jpg".to_string() };
    let mut precise = at(2026, 4, 10, 9, 0);
    precise.nano = 123_456_789;
    let entries = vec![("b".to_string(), rec(precise)), ("a".to_string(), rec(at(1969, 12, 31, 23, 59)))];
    let mut records = records_of(&entries);
    assert_eq!(records[0].ts, 1_775_811_600_123);
    assert_eq!(records[1].ts, -60_000);
    records.sort_by(|a, b| a.rel.cmp(&b.rel));
    let idx = index_from_records(&records).unwrap();
    let e = idx.entries();
    assert_eq!(e[0].rec.ts, at(1969, 12, 31, 23, 59));
    let mut back = precise;
    back.nano = 123_000_000;
    assert_eq!(e[1].rec.ts, back);
    assert_eq!(index_name(), ".tri-photos-index.json");
}

fn empty_plan() -> Plan {
    let mut index: Table<Rec> = Table::new();
    index.insert(
        "2026/avril/10 avril 2.jpg".to_string(),
        Rec { ts: at(2026, 4, 10, 9, 0), size: 1, hash: "h".to_string(), original: "a.jpg".to_string() },
    );
    let mut healed: StrMap<()> = StrMap::new();
    healed.insert("h".to_string(), ());
    Plan { renames: Vec::new(), copies: Vec::new(), index, healed, duplicates: 4, updated: 1 }
}

#[test]
fn carrying_out_a_plan() {
    let mut run = Run::start(empty_plan(), vec!["a : lecture".to_string()]);
    assert!(run.was_healed("h") && !run.was_healed("z"));
    let r = RenamePlan { from: "2026/avril/10 avril 1.jpg".to_string(), to: "2026/avril/10 avril 2.jpg".to_string() };
    run.rename_not_started(&r, "refusé");
    run.rename_done();
    run.rename_failed("2026/avril/10 avril 9.jpg", "plein");
    let c = CopyPlan {
        source_id: 0,
        to: "2026/mai/1 mai 1.jpg".to_string(),
        rec: Rec { ts: at(2026, 5, 1, 9, 0), size: 2, hash: "k".to_string(), original: "k.jpg".to_string() },
        review: false,
    };
    run.copy_done(c);
    let u = CopyPlan {
        source_id: 1,
        to: "à vérifier/u.jpg".to_string(),
        rec: Rec { ts: at(2026, 5, 1, 9, 0), size: 3, hash: "u".to_string(), original: "u.jpg".to_string() },
        review: true,
    };
    run.copy_done(u);
    run.copy_failed("v.jpg", "un fichier existe déjà à cet emplacement");
    let (s, records, healed) = run.finish();
    assert!(healed.iter().all(|h| h.is_none()));
    assert_eq!((s.imported, s.duplicates, s.renamed, s.updated), (1, 4, 1, 1));
    assert_eq!(s.uncertain, vec!["u.jpg".to_string()]);
    assert_eq!(
        s.errors,
        vec![
            "a : lecture".to_string(),
            "Renommage de 2026/avril/10 avril 1.jpg : refusé".to_string(),
            "Renommage vers 2026/avril/10 avril 9.jpg : plein".to_string(),
            "v.jpg : un fichier existe déjà à cet emplacement".to_string(),
        ]
    );
    let mut rels: Vec<String> = records.iter().map(|r| r.rel.clone()).collect();
    rels.sort();
    assert_eq!(rels, vec!["2026/mai/1 mai 1.jpg".to_string(), "à vérifier/u.jpg".to_string()]);
}

#[test]
fn progress_and_summary() {
    let p = Progress::scanning();
    assert_eq!((p.phase.as_str(), p.done, p.total), ("scan", 0, 0));
    assert_eq!(p.message.as_deref(), Some("Analyse des dossiers…"));
    let a = Progress::analyzing(3, 10);
    assert_eq!((a.phase.as_str(), a.done, a.total, a.message.is_none()), ("analyze", 3, 10, true));
    let b = Progress::applying(1, 2);
    assert_eq!(b.phase, "apply");
    let s = flash::Summary::default();
    assert_eq!((s.imported, s.duplicates, s.renamed, s.updated), (0, 0, 0, 0));
    assert!(s.uncertain.is_empty() && s.errors.is_empty());
}


fn file_fingerprint(bytes: &[u8]) -> String {
    let size = bytes.len() as u64;
    let (h, t) = reads_for(size);
    let tail = t.map(|o| &bytes[o as usize..]);
    fingerprint(&bytes[..h], tail, size)
}

#[test]
fn fingerprint_reads_only_the_ends() {
    let mut p = vec![7u8; 600000];
    let mut q = p.clone();
    p[300000] = 1;
    q[300001] = 2;
    let fp = file_fingerprint(&p);
    assert_eq!(fp, file_fingerprint(&q));
    assert_eq!(fp.len(), 40);
    assert!(fp.chars().all(|c| c.is_ascii_digit() || ('a'..='f').contains(&c)));
    q[599999] = 3;
    assert_ne!(fp, file_fingerprint(&q));
}

#[test]
fn upper_case_extensions_come_out_lower_case() {
    assert_eq!(ext_of_path("IMG_9999.HEIC"), "heic");
    assert_eq!(ext_of_path("a.tar.gz"), "gz");
    assert_eq!(ext_of_path("notes"), "");
    assert_eq!(ext_of_path(".hidden"), "");
}
