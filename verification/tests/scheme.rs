use lethe::sanitization::scheme::describe_scheme;
use lethe::sanitization::scheme::order_names;
use lethe::sanitization::scheme::NameOrder;
use lethe::sanitization::scheme::NamedScheme;
use lethe::sanitization::scheme::Scheme;
use lethe::sanitization::scheme::SchemeRepo;
use lethe::sanitization::stage::Stage;

#[test]
fn mod_test_scheme_find() {
    let repo = SchemeRepo::default();

    assert!(repo.find("missing").is_none());

    let scheme = repo.find("random");
    assert!(scheme.is_some());
}

fn kinds(scheme: &Scheme) -> Vec<Option<u8>> {
    scheme
        .stages
        .iter()
        .map(|stage| match stage {
            Stage::Fill { value } => Some(*value),
            Stage::Random { .. } => None,
        })
        .collect()
}

#[test]
fn test_built_in_schemes() {
    let repo = SchemeRepo::default();
    let names: Vec<&str> = repo.all().iter().map(|e| e.name.as_str()).collect();
    assert_eq!(
        names,
        vec!["badblocks", "dod", "gost", "random", "random2x", "vsitr", "zero"]
    );
    assert_eq!(kinds(repo.find("zero").unwrap()), vec![Some(0x00)]);
    assert_eq!(kinds(repo.find("random").unwrap()), vec![None]);
    assert_eq!(kinds(repo.find("random2x").unwrap()), vec![None, None]);
    assert_eq!(
        kinds(repo.find("badblocks").unwrap()),
        vec![Some(0xaa), Some(0x55), Some(0xff), Some(0x00)]
    );
    assert_eq!(kinds(repo.find("gost").unwrap()), vec![Some(0x00), None]);
    assert_eq!(
        kinds(repo.find("dod").unwrap()),
        vec![Some(0x00), Some(0xff), None]
    );
    assert_eq!(
        kinds(repo.find("vsitr").unwrap()),
        vec![
            Some(0x00),
            Some(0xff),
            Some(0x00),
            Some(0xff),
            Some(0x00),
            Some(0xff),
            None
        ]
    );
    assert_eq!(repo.find("dod").unwrap().description, "DoD 5220.22-M / CSEC ITSG-06 / NAVSO P-5239-26");
}

#[test]
fn test_random2x_has_independent_seeds() {
    let repo = SchemeRepo::default();
    match &repo.find("random2x").unwrap().stages[..] {
        [Stage::Random { seed: a }, Stage::Random { seed: b }] => assert_ne!(a, b),
        _ => panic!("two random stages expected"),
    }
}

#[test]
fn test_scheme_lookup_is_exact() {
    let repo = SchemeRepo::default();
    assert!(repo.find("Zero").is_none());
    assert!(repo.find("zero ").is_none());
    assert!(repo.find("").is_none());
    assert!(repo.find("random2").is_none());
}

#[test]
fn test_custom_registry() {
    let entry = |name: &str, value: u8| NamedScheme {
        name: name.to_string(),
        scheme: Scheme {
            description: format!("fill with {}", value),
            stages: vec![Stage::constant(value)],
        },
    };
    let repo = SchemeRepo::new(vec![entry("b", 2), entry("a", 1), entry("b", 3)]);
    assert_eq!(repo.all().len(), 2);
    let names: Vec<&str> = repo.all().iter().map(|e| e.name.as_str()).collect();
    assert_eq!(names, vec!["a", "b"]);
    assert_eq!(kinds(&repo.all()[0].scheme), vec![Some(1)]);
    assert_eq!(kinds(&repo.all()[1].scheme), vec![Some(3)]);
    assert_eq!(kinds(repo.find("b").unwrap()), vec![Some(3)]);
    assert_eq!(kinds(repo.find("a").unwrap()), vec![Some(1)]);
    assert!(repo.find("c").is_none());
}

#[test]
fn test_scheme_descriptions() {
    let repo = SchemeRepo::default();
    assert_eq!(
        describe_scheme(repo.find("zero").unwrap()),
        "Single zeroes fill, 1 pass\n- fill with 0x00\n"
    );
    assert_eq!(
        describe_scheme(repo.find("dod").unwrap()),
        "DoD 5220.22-M / CSEC ITSG-06 / NAVSO P-5239-26, 3 passes\n- fill with 0x00\n- fill with 0xFF\n- random fill\n"
    );
    let none = Scheme {
        description: "nothing".to_string(),
        stages: vec![],
    };
    assert_eq!(describe_scheme(&none), "nothing, 0 passes\n");
    let many = Scheme {
        description: "many".to_string(),
        stages: vec![Stage::one(); 120],
    };
    assert!(describe_scheme(&many).starts_with("many, 120 passes\n- fill with 0xFF\n"));
}

#[test]
fn test_registry_lists_by_name() {
    let entry = |name: &str| NamedScheme {
        name: name.to_string(),
        scheme: Scheme {
            description: String::new(),
            stages: vec![Stage::zero()],
        },
    };
    let given = vec!["zero", "random2x", "dod", "random", "", "Zero", "vsitr", "gost", "zéro"];
    let repo = SchemeRepo::new(given.iter().map(|name| entry(name)).collect());
    let names: Vec<&str> = repo.all().iter().map(|e| e.name.as_str()).collect();
    let mut expected = given.clone();
    expected.sort();
    assert_eq!(names, expected);
    assert!(SchemeRepo::new(vec![]).all().is_empty());
}

#[test]
fn test_order_of_names() {
    assert_eq!(order_names("a", "b"), NameOrder::Before);
    assert_eq!(order_names("b", "a"), NameOrder::After);
    assert_eq!(order_names("random", "random2x"), NameOrder::Before);
    assert_eq!(order_names("random2x", "random"), NameOrder::After);
    assert_eq!(order_names("", ""), NameOrder::Same);
    assert_eq!(order_names("", "a"), NameOrder::Before);
    assert_eq!(order_names("dod", "dod"), NameOrder::Same);
    assert_eq!(order_names("Z", "a"), NameOrder::Before);
    assert_eq!(order_names("z", "é"), NameOrder::Before);
}

#[test]
fn test_registry_keeps_one_entry_per_name() {
    let entry = |name: &str, value: u8| NamedScheme {
        name: name.to_string(),
        scheme: Scheme {
            description: String::new(),
            stages: vec![Stage::constant(value)],
        },
    };
    let repo = SchemeRepo::new(vec![
        entry("zero", 1),
        entry("zero", 2),
        entry("one", 3),
        entry("zero", 4),
        entry("one", 5),
        entry("", 6),
    ]);
    let names: Vec<&str> = repo.all().iter().map(|e| e.name.as_str()).collect();
    assert_eq!(names, vec!["", "one", "zero"]);
    assert_eq!(kinds(repo.find("zero").unwrap()), vec![Some(4)]);
    assert_eq!(kinds(repo.find("one").unwrap()), vec![Some(5)]);
    assert_eq!(kinds(repo.find("").unwrap()), vec![Some(6)]);
    let names: Vec<String> = SchemeRepo::default().all().iter().map(|e| e.name.clone()).collect();
    let mut unique = names.clone();
    unique.dedup();
    assert_eq!(names, unique);
}
