use word_frequency::collapser::Collapser;
use word_frequency::errors::LoadFromFileError;

#[test]
fn add1() {
    let mut c = Collapser::new();

    c.add("cosa", "cose");
    c.add("cosa", "cosetta");
    c.add("cosa", "cosette");

    c.add("pesce", "pesci");

    assert_eq!(c.collapse("cose"), Some("cosa"));
    assert_eq!(c.collapse("cosetta"), Some("cosa"));
    assert_eq!(c.collapse("cosette"), Some("cosa"));

    assert_eq!(c.collapse("pesci"), Some("pesce"));

    assert_eq!(c.collapse("cosette"), c.collapse("cose"));

    assert_eq!(c.collapse("cane"), None);
}

#[test]
fn empty_table_collapses_nothing() {
    let c = Collapser::new();
    assert_eq!(c.collapse("cat"), None);
    assert_eq!(c.canonical("cat".to_string()), "cat");
    assert!(c.to_lines().is_empty());
}

#[test]
fn add_rebinds_a_synonym() {
    let mut c = Collapser::new();
    c.add("cat", "kitten");
    c.add("feline", "kitten");
    assert_eq!(c.collapse("kitten"), Some("feline"));
    c.add("cat", "kitten");
    assert_eq!(c.collapse("kitten"), Some("cat"));
    assert_eq!(c.to_lines(), vec!["kitten;cat\n".to_string()]);
}

#[test]
fn add_twice_is_add_once() {
    let mut c = Collapser::new();
    c.add("cat", "kitten");
    c.add("cat", "kitten");
    assert_eq!(c.collapse("kitten"), Some("cat"));
    assert_eq!(c.to_lines().len(), 1);
}

#[test]
fn collapse_is_idempotent() {
    let mut c = Collapser::new();
    c.add("cat", "kitten");
    c.add("dog", "puppy");
    for w in ["kitten", "cat", "puppy", "dog", "bird"] {
        let once = c.canonical(w.to_string());
        let twice = c.canonical(once.clone());
        assert_eq!(once, twice);
    }
}

#[test]
fn canonical_keeps_unknown_words() {
    let mut c = Collapser::new();
    c.add("cat", "kitten");
    assert_eq!(c.canonical("kitten".to_string()), "cat");
    assert_eq!(c.canonical("bird".to_string()), "bird");
}

#[test]
fn to_lines_keeps_binding_order() {
    let mut c = Collapser::new();
    c.add("cosa", "cose");
    c.add("pesce", "pesci");
    c.add("cosa", "cosetta");
    assert_eq!(
        c.to_lines(),
        vec![
            "cose;cosa\n".to_string(),
            "pesci;pesce\n".to_string(),
            "cosetta;cosa\n".to_string()
        ]
    );
}

#[test]
fn from_lines_reads_trimmed_fields() {
    let lines = vec![
        "  cose ; cosa \n".to_string(),
        "pesci;pesce;ignored\n".to_string(),
        "\tcosette;\u{a0}cosa\r\n".to_string(),
    ];
    let c = match Collapser::from_lines(&lines) {
        Ok(c) => c,
        Err(_) => panic!("three records"),
    };
    assert_eq!(c.collapse("cose"), Some("cosa"));
    assert_eq!(c.collapse("pesci"), Some("pesce"));
    assert_eq!(c.collapse("cosette"), Some("cosa"));
    assert_eq!(c.collapse("cosa"), None);
    assert_eq!(c.collapse(" cose "), None);
}

#[test]
fn from_lines_of_nothing_is_empty() {
    let c = match Collapser::from_lines(&Vec::new()) {
        Ok(c) => c,
        Err(_) => panic!("no lines, no error"),
    };
    assert_eq!(c.collapse("cose"), None);
}

#[test]
fn from_lines_rejects_a_line_without_semicolon() {
    let lines = vec!["cose;cosa\n".to_string(), "pesci pesce\n".to_string()];
    match Collapser::from_lines(&lines) {
        Err(LoadFromFileError::FormatError(msg)) => assert_eq!(msg, "Second word not found"),
        _ => panic!("a format error"),
    }
    match Collapser::from_lines(&vec!["\n".to_string()]) {
        Err(LoadFromFileError::FormatError(msg)) => assert_eq!(msg, "Second word not found"),
        _ => panic!("a format error"),
    }
}

#[test]
fn from_lines_accepts_empty_fields() {
    let c = match Collapser::from_lines(&vec![";\n".to_string()]) {
        Ok(c) => c,
        Err(_) => panic!("one record"),
    };
    assert_eq!(c.collapse(""), Some(""));
}

#[test]
fn save_and_load_round_trip() {
    let mut c = Collapser::new();
    c.add("cosa", "cose");
    c.add("cosa", "cosetta");
    c.add("pesce", "pesci");
    c.add("big cat", "lion king");
    let saved = c.to_lines();
    let loaded = match Collapser::from_lines(&saved) {
        Ok(l) => l,
        Err(_) => panic!("saved lines are records"),
    };
    for w in ["cose", "cosetta", "pesci", "lion king", "cosa", "cane"] {
        assert_eq!(loaded.collapse(w), c.collapse(w));
    }
    assert_eq!(loaded.to_lines(), saved);
}

#[test]
fn load_error_converts_from_io_error() {
    let e = std::io::Error::new(std::io::ErrorKind::NotFound, "gone");
    match LoadFromFileError::from(e) {
        LoadFromFileError::IOError(inner) => {
            assert_eq!(inner.kind(), std::io::ErrorKind::NotFound)
        }
        _ => panic!("an i/o error"),
    }
}

#[test]
fn default_table_is_empty() {
    let c = Collapser::default();
    assert_eq!(c.collapse("cose"), None);
}
