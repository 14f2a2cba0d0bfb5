use dbseed::error::SeedError;
use dbseed::generator::{EntityGenerator, FieldTemplate};
use dbseed::rows::Pools;
use dbseed::value::Value;

fn field(column: &str, generator: &str, params: Vec<(&str, Value)>) -> FieldTemplate {
    FieldTemplate {
        column_name: String::from(column),
        generator: String::from(generator),
        params: params.into_iter().map(|(k, v)| (String::from(k), v)).collect(),
    }
}

fn one(f: FieldTemplate, pools: &Pools, pks: &Pools) -> Result<Option<Value>, SeedError> {
    let gen = EntityGenerator::new();
    let name = f.column_name.clone();
    let row = gen.generate_entity(&vec![f], pools, pks)?;
    Ok(row.get(&name).cloned())
}

#[test]
fn pk_hash_has_requested_length() {
    let pools = Pools::new();
    let v = one(
        field("id", "pk_hash", vec![("length", Value::Int(12))]),
        &pools,
        &pools,
    )
    .unwrap()
    .unwrap();
    match v {
        Value::Str(s) => {
            assert_eq!(s.len(), 12);
            assert!(s.chars().all(|c| c.is_ascii_alphanumeric()));
        }
        other => panic!("expected text, got {:?}", other),
    }
}

#[test]
fn pk_hash_defaults_to_twenty() {
    let pools = Pools::new();
    let v = one(field("id", "pk_hash", vec![]), &pools, &pools).unwrap().unwrap();
    assert!(matches!(v, Value::Str(ref s) if s.len() == 20));
}

#[test]
fn boolean_certain_chances() {
    let pools = Pools::new();
    for _ in 0..50 {
        let t = one(
            field("a", "boolean", vec![("true_chance", Value::Str(String::from("1.0")))]),
            &pools,
            &pools,
        )
        .unwrap()
        .unwrap();
        assert!(matches!(t, Value::Bool(true)));
        let f = one(
            field("a", "boolean", vec![("true_chance", Value::Str(String::from("0.0")))]),
            &pools,
            &pools,
        )
        .unwrap()
        .unwrap();
        assert!(matches!(f, Value::Bool(false)));
    }
    // integral chances clamp to never / always
    let t = one(field("a", "boolean", vec![("true_chance", Value::Int(1))]), &pools, &pools)
        .unwrap()
        .unwrap();
    assert!(matches!(t, Value::Bool(true)));
    let f = one(field("a", "boolean", vec![("true_chance", Value::Int(0))]), &pools, &pools)
        .unwrap()
        .unwrap();
    assert!(matches!(f, Value::Bool(false)));
}

#[test]
fn number_range_degenerate_is_exact() {
    let pools = Pools::new();
    for _ in 0..20 {
        let v = one(
            field(
                "n",
                "number_range",
                vec![("min", Value::Int(7)), ("max", Value::Int(7))],
            ),
            &pools,
            &pools,
        )
        .unwrap()
        .unwrap();
        assert!(matches!(v, Value::Int(7)));
    }
}

#[test]
fn number_range_stays_in_bounds() {
    let pools = Pools::new();
    for _ in 0..50 {
        let v = one(
            field(
                "n",
                "number_range",
                vec![("min", Value::Int(-3)), ("max", Value::Int(4))],
            ),
            &pools,
            &pools,
        )
        .unwrap()
        .unwrap();
        match v {
            Value::Int(k) => assert!((-3..=4).contains(&k)),
            other => panic!("expected integer, got {:?}", other),
        }
    }
}

#[test]
fn from_pool_picks_a_member() {
    let mut pools = Pools::new();
    pools.set(
        String::from("names"),
        vec![Value::Str(String::from("ada")), Value::Str(String::from("grace"))],
    );
    let empty = Pools::new();
    for _ in 0..20 {
        let v = one(
            field(
                "name",
                "from_pool",
                vec![("pool_name", Value::Str(String::from("names")))],
            ),
            &pools,
            &empty,
        )
        .unwrap()
        .unwrap();
        match v {
            Value::Str(s) => assert!(s == "ada" || s == "grace"),
            other => panic!("expected text, got {:?}", other),
        }
    }
}

#[test]
fn from_pool_errors() {
    let pools = Pools::new();
    let r = one(
        field("name", "from_pool", vec![("pool_name", Value::Str(String::from("ghost")))]),
        &pools,
        &pools,
    );
    assert!(matches!(r, Err(SeedError::PoolNotFound(ref p)) if p == "ghost"));
    let r2 = one(field("name", "from_pool", vec![]), &pools, &pools);
    assert!(matches!(r2, Err(SeedError::InvalidTemplate(ref p)) if p == "pool_name"));
}

#[test]
fn fk_errors_and_null() {
    let empty = Pools::new();
    // absent parent pool: a dependency error
    let r = one(
        field("author", "fk", vec![("references", Value::Str(String::from("users")))]),
        &empty,
        &empty,
    );
    assert!(matches!(r, Err(SeedError::DependencyNotFound(ref t)) if t == "users"));
    // present but empty parent pool: the column is left out
    let mut pks = Pools::new();
    pks.set(String::from("users"), vec![]);
    let v = one(
        field("author", "fk", vec![("references", Value::Str(String::from("users")))]),
        &empty,
        &pks,
    )
    .unwrap();
    assert!(v.is_none());
    // missing parameter
    let r2 = one(field("author", "fk", vec![]), &empty, &empty);
    assert!(matches!(r2, Err(SeedError::InvalidTemplate(ref p)) if p == "references"));
}

#[test]
fn fk_picks_a_parent_key() {
    let empty = Pools::new();
    let mut pks = Pools::new();
    pks.set(
        String::from("users"),
        vec![Value::Str(String::from("u1")), Value::Str(String::from("u2"))],
    );
    for _ in 0..20 {
        let v = one(
            field("author", "fk", vec![("references", Value::Str(String::from("users")))]),
            &empty,
            &pks,
        )
        .unwrap()
        .unwrap();
        assert!(matches!(v, Value::Str(ref s) if s == "u1" || s == "u2"));
    }
}

#[test]
fn unknown_generator_is_fatal() {
    let pools = Pools::new();
    let r = one(field("x", "frobnicate", vec![]), &pools, &pools);
    assert!(matches!(r, Err(SeedError::UnknownGenerator(ref g)) if g == "frobnicate"));
}

#[test]
fn template_generator_reads_earlier_fields() {
    let gen = EntityGenerator::new();
    let pools = Pools::new();
    let fields = vec![
        field("first_name", "from_pool", vec![("pool_name", Value::Str(String::from("n")))]),
        field("age", "number_range", vec![("min", Value::Int(30)), ("max", Value::Int(30))]),
        field(
            "bio",
            "template",
            vec![("format", Value::Str(String::from("{first_name} is {age}")))],
        ),
    ];
    let mut with_pool = Pools::new();
    with_pool.set(String::from("n"), vec![Value::Str(String::from("Ann"))]);
    let row = gen.generate_entity(&fields, &with_pool, &pools).unwrap();
    let bio = row.get(&String::from("bio")).cloned().unwrap();
    assert!(matches!(bio, Value::Str(ref s) if s == "Ann is 30"));
}

#[test]
fn template_random_digits_are_four_digits() {
    let pools = Pools::new();
    for _ in 0..10 {
        let v = one(
            field(
                "code",
                "template",
                vec![("format", Value::Str(String::from("c-{random_digits:4}")))],
            ),
            &pools,
            &pools,
        )
        .unwrap()
        .unwrap();
        match v {
            Value::Str(s) => {
                assert_eq!(s.len(), 6);
                assert!(s.starts_with("c-"));
                assert!(s[2..].chars().all(|c| c.is_ascii_digit()));
            }
            other => panic!("expected text, got {:?}", other),
        }
    }
}

#[test]
fn words_and_sentence_shapes() {
    let pools = Pools::new();
    for _ in 0..10 {
        let w = one(
            field("t", "words", vec![("min", Value::Int(2)), ("max", Value::Int(5))]),
            &pools,
            &pools,
        )
        .unwrap()
        .unwrap();
        match w {
            Value::Str(s) => {
                let count = s.split(' ').count();
                assert!((2..5).contains(&count), "got {} words", count);
            }
            other => panic!("expected text, got {:?}", other),
        }
        let se = one(field("t", "sentence", vec![]), &pools, &pools).unwrap().unwrap();
        assert!(matches!(se, Value::Str(ref s) if !s.is_empty() && s.ends_with('.')));
    }
}

#[test]
fn datetime_range_degenerate_emits_start() {
    let pools = Pools::new();
    let v = one(
        field(
            "at",
            "datetime_range",
            vec![
                ("start", Value::Str(String::from("2024-03-06"))),
                ("end", Value::Str(String::from("2024-03-05"))),
            ],
        ),
        &pools,
        &pools,
    )
    .unwrap()
    .unwrap();
    assert!(matches!(v, Value::Str(ref s) if s == "2024-03-06T00:00:00+00:00"));
}

#[test]
fn datetime_range_stays_inside_the_day_span() {
    let pools = Pools::new();
    for _ in 0..10 {
        let v = one(
            field(
                "at",
                "datetime_range",
                vec![
                    ("start", Value::Str(String::from("2020-05-05"))),
                    ("end", Value::Str(String::from("2020-05-05"))),
                ],
            ),
            &pools,
            &pools,
        )
        .unwrap()
        .unwrap();
        assert!(matches!(v, Value::Str(ref s) if s.starts_with("2020-05-05T")));
    }
}

#[test]
fn datetime_range_defaults_cover_twenty_twenty_to_twenty_four() {
    let pools = Pools::new();
    let v = one(field("at", "datetime_range", vec![]), &pools, &pools).unwrap().unwrap();
    match v {
        Value::Str(s) => {
            assert!(s.as_str() >= "2020-01-01T00:00:00+00:00");
            assert!(s.as_str() <= "2024-01-01T23:59:59+00:00");
        }
        other => panic!("expected text, got {:?}", other),
    }
}
