use rbe::manifest::join_path;
use rbe::{ManifestError, ManifestSchemas, ManifestSchemasGraph, RunStep, Schema, SchemasEntry};

fn entry(json: &str) -> SchemasEntry {
    SchemasEntry {
        id: format!("#{json}"),
        type_: "sx:SchemasEntry".to_string(),
        name: json.to_string(),
        status: "mf:Approved".to_string(),
        shex: json.replace(".json", ".shex"),
        json: json.to_string(),
        ttl: json.replace(".json", ".ttl"),
    }
}

fn manifest(entries: Vec<SchemasEntry>) -> ManifestSchemas {
    ManifestSchemas {
        graph: vec![ManifestSchemasGraph {
            id: "".to_string(),
            type_: "mf:Manifest".to_string(),
            comment: "schemas".to_string(),
            entries,
        }],
    }
}

#[test]
fn joins_paths() {
    assert_eq!(join_path(&"base".to_string(), &"a.json".to_string()), "base/a.json");
    assert_eq!(join_path(&"base/".to_string(), &"a.json".to_string()), "base/a.json");
    assert_eq!(join_path(&"".to_string(), &"a.json".to_string()), "a.json");
    assert_eq!(join_path(&"base".to_string(), &"/abs/a.json".to_string()), "/abs/a.json");
    assert_eq!(
        Schema::parse_schema_name(&"s.json".to_string(), &"dir/sub".to_string()),
        "dir/sub/s.json"
    );
    assert_eq!(entry("x.json").json_path(&"m".to_string()), "m/x.json");
}

#[test]
fn manifest_run_steps() {
    let m = manifest(vec![entry("1dot.json"), entry("2dot.json")]);
    let base = "schemas".to_string();
    assert_eq!(
        m.run(&base, 0, None),
        RunStep::Check {
            index: 0,
            path: "schemas/1dot.json".to_string()
        }
    );
    assert_eq!(
        m.run(&base, 1, None),
        RunStep::Check {
            index: 1,
            path: "schemas/2dot.json".to_string()
        }
    );
    assert_eq!(m.run(&base, 2, None), RunStep::Done(Ok(())));
    let err = ManifestError::JsonError {
        path_name: "schemas/1dot.json".to_string(),
        error: "bad".to_string(),
    };
    assert_eq!(m.run(&base, 1, Some(err.clone())), RunStep::Done(Err(err)));
    assert_eq!(manifest(vec![]).run(&base, 0, None), RunStep::Done(Ok(())));
}
