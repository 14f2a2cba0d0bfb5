use dbseed::config::SeedingTask;
use dbseed::error::SeedError;
use dbseed::generator::FieldTemplate;
use dbseed::persist::BindValue;
use dbseed::plan::{ArchitecturalPlan, EntityTemplate};
use dbseed::rows::Pools;
use dbseed::schema::{ColumnSchema, DbSchema, ForeignKey, TableSchema};
use dbseed::seeder::Seeder;
use dbseed::value::Value;

fn col(name: &str, ty: &str) -> ColumnSchema {
    ColumnSchema {
        name: String::from(name),
        data_type: String::from(ty),
        is_nullable: false,
        column_default: None,
    }
}

fn fk(from_table: &str, from_column: &str, to_table: &str, to_column: &str) -> ForeignKey {
    ForeignKey {
        from_table: String::from(from_table),
        from_column: String::from(from_column),
        to_table: String::from(to_table),
        to_column: String::from(to_column),
    }
}

fn field(column: &str, generator: &str, params: Vec<(&str, Value)>) -> FieldTemplate {
    FieldTemplate {
        column_name: String::from(column),
        generator: String::from(generator),
        params: params.into_iter().map(|(k, v)| (String::from(k), v)).collect(),
    }
}

fn entity(name: &str, table: &str, fields: Vec<FieldTemplate>) -> EntityTemplate {
    EntityTemplate {
        entity_name: String::from(name),
        target_table: String::from(table),
        fields,
    }
}

fn task(table: &str, rows: u32) -> SeedingTask {
    SeedingTask {
        table: String::from(table),
        rows,
        columns: None,
        column_overrides: vec![],
        smart_mode: false,
    }
}

fn users_posts_schema() -> DbSchema {
    DbSchema {
        tables: vec![
            TableSchema {
                name: String::from("users"),
                columns: vec![col("id", "text")],
                primary_key_column: Some(String::from("id")),
            },
            TableSchema {
                name: String::from("posts"),
                columns: vec![col("id", "text"), col("author_id", "text")],
                primary_key_column: Some(String::from("id")),
            },
        ],
        foreign_keys: vec![fk("posts", "author_id", "users", "id")],
    }
}

fn users_posts_plan() -> ArchitecturalPlan {
    ArchitecturalPlan {
        theme: String::from("a small forum"),
        entity_templates: vec![
            // deliberately listed child-first: the order must come from the graph
            entity(
                "Post",
                "posts",
                vec![
                    field("id", "pk_hash", vec![("length", Value::Int(8))]),
                    field("author_id", "fk", vec![("references", Value::Str(String::from("users")))]),
                ],
            ),
            entity("User", "users", vec![field("id", "pk_hash", vec![("length", Value::Int(8))])]),
        ],
    }
}

#[test]
fn end_to_end_users_committed_before_posts() {
    let seeder = Seeder::new(users_posts_schema());
    let plan = users_posts_plan();
    let tasks = vec![task("users", 3), task("posts", 5)];
    let data_pools = Pools::new();
    let mut run = seeder.start_run(&plan, &tasks).unwrap();
    let mut seeded: Vec<String> = vec![];
    let mut user_ids: Vec<String> = vec![];
    let mut post_authors: Vec<String> = vec![];
    loop {
        let step = run.begin_entity().unwrap();
        let Some((entity_name, table, rows)) = step else { break };
        seeded.push(table.clone());
        if table == "users" {
            assert_eq!(entity_name, "User");
        } else {
            assert_eq!(entity_name, "Post");
        }
        for _ in 0..rows {
            let stmt = run.prepare_row(&data_pools).unwrap();
            // simulate the database: a text key returns exactly as inserted
            let BindValue::Text(id) = &stmt.binds[0] else { panic!("expected a text key") };
            if table == "posts" {
                let BindValue::Text(author) = &stmt.binds[1] else {
                    panic!("expected a text author key")
                };
                post_authors.push(author.clone());
            } else {
                user_ids.push(id.clone());
            }
            run.record_pk(Value::Str(id.clone()));
        }
        run.finish_entity();
    }
    assert_eq!(seeded, vec!["users", "posts"]);
    assert_eq!(user_ids.len(), 3);
    assert_eq!(post_authors.len(), 5);
    for author in &post_authors {
        assert!(user_ids.contains(author), "{} is not a committed user id", author);
    }
}

#[test]
fn cyclic_dependencies_stop_the_run_before_any_insert() {
    let mut schema = users_posts_schema();
    // close the loop: users also references posts
    schema.foreign_keys.push(fk("users", "id", "posts", "id"));
    let seeder = Seeder::new(schema);
    let plan = users_posts_plan();
    let tasks = vec![task("users", 3), task("posts", 5)];
    let r = seeder.start_run(&plan, &tasks);
    assert!(matches!(r, Err(SeedError::CyclicDependency)));
}

#[test]
fn entities_without_a_task_are_skipped() {
    let seeder = Seeder::new(users_posts_schema());
    let plan = users_posts_plan();
    let tasks = vec![task("users", 2)];
    let data_pools = Pools::new();
    let mut run = seeder.start_run(&plan, &tasks).unwrap();
    let mut seeded: Vec<String> = vec![];
    loop {
        let Some((_, table, rows)) = run.begin_entity().unwrap() else { break };
        seeded.push(table.clone());
        for _ in 0..rows {
            let stmt = run.prepare_row(&data_pools).unwrap();
            let BindValue::Text(id) = &stmt.binds[0] else { panic!() };
            run.record_pk(Value::Str(id.clone()));
        }
        run.finish_entity();
    }
    assert_eq!(seeded, vec!["users"]);
}

#[test]
fn keyless_parent_never_yields_a_phantom_key() {
    // posts has no single-column primary key; users references it
    let schema = DbSchema {
        tables: vec![
            TableSchema {
                name: String::from("posts"),
                columns: vec![col("id", "text"), col("body", "text")],
                primary_key_column: None,
            },
            TableSchema {
                name: String::from("users"),
                columns: vec![col("id", "text"), col("fav", "text")],
                primary_key_column: Some(String::from("id")),
            },
        ],
        foreign_keys: vec![fk("users", "fav", "posts", "id")],
    };
    let plan = ArchitecturalPlan {
        theme: String::from("favourites"),
        entity_templates: vec![
            entity("Post", "posts", vec![field("id", "pk_hash", vec![])]),
            entity(
                "User",
                "users",
                vec![
                    field("id", "pk_hash", vec![]),
                    field("fav", "fk", vec![("references", Value::Str(String::from("posts")))]),
                ],
            ),
        ],
    };
    let seeder = Seeder::new(schema);
    let tasks = vec![task("posts", 2), task("users", 2)];
    let data_pools = Pools::new();
    let mut run = seeder.start_run(&plan, &tasks).unwrap();

    // posts go first and return no keys
    let (_, table, rows) = run.begin_entity().unwrap().unwrap();
    assert_eq!(table, "posts");
    for _ in 0..rows {
        let stmt = run.prepare_row(&data_pools).unwrap();
        assert!(stmt.pk.is_none());
    }
    run.finish_entity();

    // users then fail to resolve the reference instead of inventing keys
    let (_, table2, _) = run.begin_entity().unwrap().unwrap();
    assert_eq!(table2, "users");
    let r = run.prepare_row(&data_pools);
    assert!(matches!(r, Err(SeedError::DependencyNotFound(ref t)) if t == "posts"));
}

#[test]
fn self_reference_sees_earlier_rows_of_the_batch() {
    let schema = DbSchema {
        tables: vec![TableSchema {
            name: String::from("employees"),
            columns: vec![col("id", "text"), col("boss_id", "text")],
            primary_key_column: Some(String::from("id")),
        }],
        foreign_keys: vec![fk("employees", "boss_id", "employees", "id")],
    };
    let plan = ArchitecturalPlan {
        theme: String::from("an org chart"),
        entity_templates: vec![entity(
            "Employee",
            "employees",
            vec![
                field("id", "pk_hash", vec![]),
                field("boss_id", "fk", vec![("references", Value::Str(String::from("employees")))]),
            ],
        )],
    };
    let seeder = Seeder::new(schema);
    let tasks = vec![task("employees", 3)];
    let data_pools = Pools::new();
    let mut run = seeder.start_run(&plan, &tasks).unwrap();
    let (_, _, rows) = run.begin_entity().unwrap().unwrap();
    let mut ids: Vec<String> = vec![];
    for i in 0..rows {
        let stmt = run.prepare_row(&data_pools).unwrap();
        let BindValue::Text(id) = &stmt.binds[0] else { panic!() };
        if i == 0 {
            // nobody to report to yet: the column is left out
            assert_eq!(stmt.binds.len(), 1);
        } else {
            assert_eq!(stmt.binds.len(), 2);
            let BindValue::Text(boss) = &stmt.binds[1] else { panic!() };
            assert!(ids.contains(boss));
        }
        ids.push(id.clone());
        run.record_pk(Value::Str(id.clone()));
    }
    run.finish_entity();
    assert!(run.begin_entity().unwrap().is_none());
}

#[test]
fn plan_targeting_a_missing_table_fails() {
    let seeder = Seeder::new(users_posts_schema());
    let plan = ArchitecturalPlan {
        theme: String::from("oops"),
        entity_templates: vec![entity("Ghost", "ghosts", vec![field("id", "pk_hash", vec![])])],
    };
    let tasks = vec![task("ghosts", 1)];
    let mut run = seeder.start_run(&plan, &tasks).unwrap();
    let r = run.begin_entity();
    assert!(matches!(r, Err(SeedError::MissingTable(ref t)) if t == "ghosts"));
}

#[test]
fn later_entity_for_the_same_table_wins() {
    let seeder = Seeder::new(users_posts_schema());
    let plan = ArchitecturalPlan {
        theme: String::from("revised"),
        entity_templates: vec![
            entity("UserDraft", "users", vec![field("id", "pk_hash", vec![])]),
            entity("UserFinal", "users", vec![field("id", "pk_hash", vec![])]),
        ],
    };
    let tasks = vec![task("users", 1)];
    let data_pools = Pools::new();
    let mut run = seeder.start_run(&plan, &tasks).unwrap();
    let (name, _, rows) = run.begin_entity().unwrap().unwrap();
    assert_eq!(name, "UserFinal");
    for _ in 0..rows {
        let stmt = run.prepare_row(&data_pools).unwrap();
        let BindValue::Text(id) = &stmt.binds[0] else { panic!() };
        run.record_pk(Value::Str(id.clone()));
    }
    run.finish_entity();
    assert!(run.begin_entity().unwrap().is_none());
}

#[test]
fn discovery_graph_lists_table_dependencies() {
    let seeder = Seeder::new(users_posts_schema());
    let (graph, names) = seeder.build_full_dependency_graph();
    assert_eq!(names, vec!["users", "posts"]);
    // users (node 0) must come before posts (node 1)
    let order = graph.topo_sort().unwrap();
    let pos = |v: usize| order.iter().position(|&x| x == v).unwrap();
    assert!(pos(0) < pos(1));
    // posts depends on users: users reaches posts
    assert_eq!(graph.reachable_from(0), vec![true, true]);
    assert_eq!(graph.reachable_from(1), vec![false, true]);
}
