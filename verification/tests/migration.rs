//! Migrations.

use clash_prism_core::migration::{
    get_current_version, pending_order, run_migrations, set_version, Migration,
};
use clash_prism_core::number::{read_number, to_json_number, Number};
use clash_prism_core::value::{Document, Object};

/// The document that a JSON text denotes.
fn value(text: &str) -> Document {
    let parsed: serde_json::Value = serde_json::from_str(text).unwrap();
    lib(&parsed)
}

/// The same document for the library.
fn lib(v: &serde_json::Value) -> Document {
    match v {
        serde_json::Value::Null => Document::Null,
        serde_json::Value::Bool(b) => Document::Bool(*b),
        serde_json::Value::Number(n) => {
            if let Some(i) = n.as_i64() {
                Document::Number(Number::Int(i))
            } else if let Some(u) = n.as_u64() {
                Document::Number(Number::UInt(u))
            } else {
                let text: Vec<char> = n.to_string().chars().collect();
                Document::Number(to_json_number(read_number(&text).unwrap()))
            }
        }
        serde_json::Value::String(s) => Document::String(s.clone()),
        serde_json::Value::Array(items) => Document::Array(items.iter().map(lib).collect()),
        serde_json::Value::Object(map) => {
            let mut out = Object::new();
            for (k, v) in map {
                out.insert(k.clone(), lib(v));
            }
            Document::Object(out)
        }
    }
}

/// 测试用迁移 V1：添加 new_field 字段
struct TestMigrationV1;

impl Migration for TestMigrationV1 {
    fn name(&self) -> &'static str {
        "test_v1"
    }
    fn target_version(&self) -> u32 {
        1
    }
    fn apply(&self, config: &mut Document) -> Result<bool, String> {
        if config.get("new_field").is_some() {
            return Ok(false);
        }
        if let Some(obj) = config.as_object_mut() {
            obj.insert("new_field".into(), Document::String("default".into()));
        }
        Ok(true)
    }
}

/// 测试用迁移 V2：添加 another_field 字段
struct TestMigrationV2;

impl Migration for TestMigrationV2 {
    fn name(&self) -> &'static str {
        "test_v2"
    }
    fn target_version(&self) -> u32 {
        2
    }
    fn apply(&self, config: &mut Document) -> Result<bool, String> {
        if config.get("another_field").is_some() {
            return Ok(false);
        }
        if let Some(obj) = config.as_object_mut() {
            obj.insert("another_field".into(), Document::Number(Number::Int(42)));
        }
        Ok(true)
    }
}

/// 测试用迁移 V3：模拟失败的迁移
struct FailMigrationV3;

impl Migration for FailMigrationV3 {
    fn name(&self) -> &'static str {
        "fail_v3"
    }
    fn target_version(&self) -> u32 {
        3
    }
    fn apply(&self, _config: &mut Document) -> Result<bool, String> {
        Err("模拟迁移失败".to_string())
    }
}

#[test]
fn test_run_migrations_empty() {
    let mut config = value(r#"{}"#);
    let reports = run_migrations(&mut config, &[]);
    assert!(reports.is_empty());
}

#[test]
fn test_run_migrations_applies_new() {
    let mut config = value(r#"{}"#);
    let migrations: Vec<Box<dyn Migration>> = vec![Box::new(TestMigrationV1)];
    let reports = run_migrations(&mut config, &migrations);
    assert_eq!(reports.len(), 1);
    assert!(reports[0].migrated);
    assert_eq!(get_current_version(&config), 1);
    assert_eq!(config.get("new_field").unwrap().as_str(), Some("default"));
}

#[test]
fn test_run_migrations_idempotent() {
    // 版本已满足，应跳过所有迁移
    let mut config = value(r#"{"prism_version": 1, "new_field": "default"}"#);
    let migrations: Vec<Box<dyn Migration>> = vec![Box::new(TestMigrationV1)];
    let reports = run_migrations(&mut config, &migrations);
    assert_eq!(reports.len(), 0);
}

#[test]
fn test_run_migrations_sequential() {
    // 空配置，依次执行 V1 和 V2
    let mut config = value(r#"{}"#);
    let migrations: Vec<Box<dyn Migration>> =
        vec![Box::new(TestMigrationV2), Box::new(TestMigrationV1)];
    let reports = run_migrations(&mut config, &migrations);
    // 两个迁移都应该执行（按版本号排序后 V1 先，V2 后）
    assert_eq!(reports.len(), 2);
    assert_eq!(reports[0].name, "test_v1");
    assert_eq!(reports[1].name, "test_v2");
    assert_eq!(get_current_version(&config), 2);
}

#[test]
fn test_run_migrations_partial_apply() {
    // 版本为 1，只应执行 V2
    let mut config = value(r#"{"prism_version": 1, "new_field": "default"}"#);
    let migrations: Vec<Box<dyn Migration>> =
        vec![Box::new(TestMigrationV1), Box::new(TestMigrationV2)];
    let reports = run_migrations(&mut config, &migrations);
    assert_eq!(reports.len(), 1);
    assert_eq!(reports[0].name, "test_v2");
    assert!(reports[0].migrated);
    assert_eq!(get_current_version(&config), 2);
}

#[test]
fn test_run_migrations_failure_stops_chain() {
    // 按版本号排序: V1(1) -> V2(2) -> V3(3)
    // V1、V2 成功，V3 失败后停止后续迁移
    let mut config = value(r#"{}"#);
    let migrations: Vec<Box<dyn Migration>> = vec![
        Box::new(TestMigrationV1),
        Box::new(FailMigrationV3),
        Box::new(TestMigrationV2),
    ];
    let reports = run_migrations(&mut config, &migrations);
    // V1 执行成功，V2 执行成功，V3 失败
    assert_eq!(reports.len(), 3);
    assert!(reports[0].migrated); // V1
    assert!(reports[1].migrated); // V2
    assert!(!reports[2].migrated); // V3 失败
    // 版本号应停留在 V2（V3 失败不推进）
    assert_eq!(get_current_version(&config), 2);
}

#[test]
fn test_get_current_version_default() {
    let config = value(r#"{}"#);
    assert_eq!(get_current_version(&config), 0);
}

#[test]
fn test_set_version() {
    let mut config = value(r#"{}"#);
    set_version(&mut config, 5).unwrap();
    assert_eq!(get_current_version(&config), 5);
}

#[test]
fn test_set_version_non_object() {
    let mut config = value(r#""not an object""#);
    let result = set_version(&mut config, 5);
    assert!(result.is_err());
}

/// 测试用迁移：修改配置后失败
struct HalfMigration;

impl Migration for HalfMigration {
    fn name(&self) -> &'static str {
        "half"
    }
    fn target_version(&self) -> u32 {
        2
    }
    fn apply(&self, config: &mut Document) -> Result<bool, String> {
        config
            .as_object_mut()
            .unwrap()
            .insert("half".to_string(), Document::Bool(true));
        Err("中途失败".to_string())
    }
}

#[test]
fn a_failed_migration_is_undone() {
    let mut config = value(r#"{}"#);
    let migrations: Vec<Box<dyn Migration>> =
        vec![Box::new(HalfMigration), Box::new(TestMigrationV1)];
    let reports = run_migrations(&mut config, &migrations);
    assert_eq!(reports.len(), 2);
    assert_eq!(reports[0].message, "已迁移至版本 1");
    assert_eq!(reports[1].message, "迁移失败（已回滚）: 中途失败");
    assert!(config.get("half").is_none());
    assert_eq!(get_current_version(&config), 1);
}

#[test]
fn running_twice_changes_nothing() {
    let mut config = value(r#"{"new_field": 1}"#);
    let migrations: Vec<Box<dyn Migration>> =
        vec![Box::new(TestMigrationV2), Box::new(TestMigrationV1)];
    let reports = run_migrations(&mut config, &migrations);
    assert_eq!(reports[0].message, "配置已处于目标状态，跳过");
    assert!(!reports[0].migrated);
    let once = config.clone();
    assert!(run_migrations(&mut config, &migrations).is_empty());
    assert!(config == once);
}

#[test]
fn versions_that_are_no_small_numbers() {
    assert_eq!(get_current_version(&value(r#"{"prism_version": 4294967296}"#)), u32::MAX);
    assert_eq!(get_current_version(&value(r#"{"prism_version": -1}"#)), 0);
    assert_eq!(get_current_version(&value(r#"{"prism_version": "7"}"#)), 0);
    let mut config = value(r#"[1]"#);
    assert_eq!(
        set_version(&mut config, 5).unwrap_err(),
        "set_version: config 不是 JSON Object，无法设置 prism_version=5"
    );
    assert_eq!(pending_order(&vec![3, 1, 2, 3, 0], 1), vec![2, 0, 3]);
}
