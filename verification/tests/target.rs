//! Output for the cores.

use clash_prism_core::json_text::to_json_text;
use clash_prism_core::number::{read_number, to_json_number, Number};
use clash_prism_core::output::{is_stale_temp, StepOutcome, WriteStep};
use clash_prism_core::reload::{
    after_step, HotReloadStrategy, ReloadEvent, ReloadStep, SignalReply,
};
use clash_prism_core::target::{compact_yaml, field_mappings, TargetCompiler, TargetCore};
use clash_prism_core::value::{Document, Object};

/// The document that a JSON text denotes.
fn json(text: &str) -> serde_json::Value {
    serde_json::from_str(text).unwrap()
}

/// The same document for the library.
fn lib(v: &serde_json::Value) -> Document {
    match v {
        serde_json::Value::Null => Document::Null,
        serde_json::Value::Bool(b) => Document::Bool(*b),
        serde_json::Value::Number(n) => {
            if let Some(i) = n.as_i64() {
                Document::Number(Number::Int(i))
            } else if let Some(u) = n.as_u64() {
                Document::Number(Number::UInt(u))
            } else {
                let text: Vec<char> = n.to_string().chars().collect();
                Document::Number(to_json_number(read_number(&text).unwrap()))
            }
        }
        serde_json::Value::String(s) => Document::String(s.clone()),
        serde_json::Value::Array(items) => Document::Array(items.iter().map(lib).collect()),
        serde_json::Value::Object(map) => {
            let mut out = Object::new();
            for (k, v) in map {
                out.insert(k.clone(), lib(v));
            }
            Document::Object(out)
        }
    }
}

#[test]
fn test_compile_mihomo_yaml() {
    let compiler = TargetCompiler::mihomo();
    let config = json(r#"{ "proxies": [ {"name": "test", "type": "ss", "server": "example.com", "port": 8388} ], "rules": ["MATCH,DIRECT"] }"#);

    let result = compiler.compile(&lib(&config)).unwrap();
    assert!(result.contains("proxies:"));
    assert!(result.contains("name: test"));
    assert!(result.contains("rules:"));
    assert!(result.contains("MATCH,DIRECT"));
}

#[test]
fn test_compile_clash_rs_yaml() {
    let compiler = TargetCompiler::clash_rs();
    let config = json(r#"{ "mixed-port": 7890, "mode": "rule" }"#);

    let result = compiler.compile(&lib(&config)).unwrap();
    assert!(result.contains("mixed-port: 7890"));
    assert!(result.contains("mode: rule"));
}

#[test]
fn test_compile_json_output() {
    let compiler = TargetCompiler::json_output();
    let config = json(r#"{"key": "value"}"#);

    let result = compiler.compile(&lib(&config)).unwrap();
    assert!(result.starts_with("{"));
    assert!(result.contains("\"key\""));
    assert!(result.contains("\"value\""));
}

#[test]
fn test_empty_config() {
    let compiler = TargetCompiler::mihomo();
    let config = json(r#"{}"#);

    let result = compiler.compile(&lib(&config)).unwrap();
    assert_eq!(result.trim(), "{}");
}

#[test]
fn test_complex_config_roundtrip() {
    let compiler = TargetCompiler::mihomo();
    let config = json(r#"{ "mixed-port": 7890, "allow-lan": true, "mode": "rule", "log-level": "info", "dns": { "enable": true, "ipv6": false, "nameserver": ["https://dns.alidns.com/dns-query"] }, "proxies": [], "proxy-groups": [ {"name": "PROXY", "type": "select", "proxies": ["DIRECT"]} ], "rules": ["MATCH,DIRECT"] }"#);

    let yaml_output = compiler.compile(&lib(&config)).unwrap();

    // 验证关键结构存在
    assert!(yaml_output.contains("mixed-port:"));
    assert!(yaml_output.contains("dns:"));
    assert!(yaml_output.contains("enable:"));
    assert!(yaml_output.contains("proxy-groups:"));
    assert!(yaml_output.contains("rules:"));

    // 验证可以反向解析（round-trip）
    let parsed: serde_yml::Value = serde_yml::from_str(&yaml_output).unwrap();
    assert!(parsed.get("mixed-port").is_some());
    assert!(parsed.get("dns").is_some());
}

#[test]
fn test_adapt_remove_field_for_clash_rs() {
    let compiler = TargetCompiler::clash_rs();
    let config = json(r#"{ "tun": { "enable": true, "device": "Meta", "stack": "mixed" } }"#);

    let result = compiler.compile(&lib(&config)).unwrap();
    let parsed: serde_yml::Value = serde_yml::from_str(&result).unwrap();
    let tun = &parsed["tun"];
    assert!(tun.get("device").is_none(), "tun.device 应被移除");
    assert!(
        tun.get("interface-name").is_some(),
        "tun.interface-name 应存在"
    );
    assert!(tun.get("enable").is_some(), "tun.enable 应存在");
}

#[test]
fn test_adapt_no_change_for_mihomo() {
    let compiler = TargetCompiler::mihomo();
    let config = json(r#"{ "tun": { "enable": true, "device": "Meta", "stack": "mixed" } }"#);

    let result = compiler.compile(&lib(&config)).unwrap();
    // All fields should remain for mihomo
    assert!(result.contains("device"));
    assert!(result.contains("stack"));
    assert!(result.contains("enable"));
}

#[test]
fn test_adapt_remove_nonexistent_field() {
    let compiler = TargetCompiler::clash_rs();
    let config = json(r#"{ "dns": {"enable": true} }"#);

    // Should not panic when field doesn't exist
    let result = compiler.compile(&lib(&config)).unwrap();
    assert!(result.contains("enable"));
}

#[test]
fn test_hot_reload_none_strategy() {
    let compiler = TargetCompiler::mihomo();
    let result = compiler.notify_hot_reload(HotReloadStrategy::Off);
    let reload = match result.unwrap() {
        ReloadStep::Done(reload) => reload,
        other => panic!("{:?}", other),
    };
    assert!(reload.success);
    assert_eq!(reload.strategy, "none");
    assert_eq!(
        reload.to_text(),
        "[✅ none] 热重载已禁用，配置文件已更新但未通知内核"
    );
}

#[test]
fn the_layouts_of_json() {
    let config = lib(&json(r#"{"a": [1, {"b": []}], "c": {}, "d": null}"#));
    let pretty = TargetCompiler::json_output().compile(&config).unwrap();
    assert_eq!(
        pretty,
        "{\n  \"a\": [\n    1,\n    {\n      \"b\": []\n    }\n  ],\n  \"c\": {},\n  \"d\": null\n}"
    );
    let compact = TargetCompiler::json_output().pretty(false).compile(&config).unwrap();
    assert_eq!(compact, r#"{"a":[1,{"b":[]}],"c":{},"d":null}"#);
}

#[test]
fn yaml_of_scalars() {
    let config = lib(&json(
        r#"{"f": 1.5, "i": -3, "m": null, "s": "true", "t": true, "u": 18446744073709551615}"#,
    ));
    let yaml = TargetCompiler::with_target(TargetCore::Mihomo).compile(&config).unwrap();
    assert_eq!(
        yaml,
        "f: 1.5\ni: -3\nm: null\ns: 'true'\nt: true\nu: 18446744073709551615\n"
    );
    let parsed: serde_yml::Value = serde_yml::from_str(&yaml).unwrap();
    assert_eq!(parsed["s"].as_str(), Some("true"));
}

#[test]
fn fields_that_clash_rs_does_not_take() {
    let config = lib(&json(
        r#"{"secret": "x", "external-controller-tls": "y", "mode": "rule",
            "experimental": {"ignore-certificate-errors": true, "other": 1},
            "tun": {"device": "Meta", "stack": "mixed"}, "log": {"level": "info"}}"#,
    ));
    let compiler = TargetCompiler::clash_rs();
    let adapted = compiler.adapt_for_target(&config, TargetCore::ClashRs);
    assert_eq!(
        to_json_text(&adapted),
        r#"{"experimental":{"other":1},"log":{"level":"info"},"mode":"rule","tun":{"interface-name":"mixed"}}"#
    );
    let adapted = compiler.adapt_for_target(&config, TargetCore::Mihomo);
    assert_eq!(adapted.get("log-level").unwrap().as_str(), Some("info"));
    assert!(adapted.get("log").unwrap().get("level").is_none());
    assert_eq!(TargetCore::ClashRs.name(), "clash-rs");
    assert_eq!(field_mappings().len(), 6);
}

#[test]
fn deep_documents_are_written() {
    let mut deep = Document::Bool(true);
    for _ in 0..300 {
        let mut o = Object::new();
        o.insert("k".to_string(), deep);
        deep = Document::Object(o);
    }
    let yaml = TargetCompiler::mihomo().compile(&deep).unwrap();
    assert_eq!(yaml.lines().count(), 300);
    assert!(yaml.trim_end().ends_with("k: true"));
}

#[test]
fn empty_lines_go_except_in_blocks() {
    assert_eq!(compact_yaml("a: 1\n\n\nb: 2\n\n"), "a: 1\nb: 2\n");
    assert_eq!(compact_yaml("a: |\n  x\n\n  y\n\nb: 2"), "a: |\n  x\n\n  y\n\nb: 2\n");
    assert_eq!(compact_yaml("a: >\n  x\n\nb: 2\n\nc: 3\n"), "a: >\n  x\n\nb: 2\nc: 3\n");
    assert_eq!(compact_yaml("a: b|\n\nc: 1\r\n"), "a: b|\nc: 1\n");
    assert_eq!(compact_yaml(""), "\n");
    for sign in ["|-", "|+", ">-", ">+", "|2", "|2-", ">-1"] {
        let key = format!("k: {sign}\n  a\n\n  b\n");
        assert_eq!(compact_yaml(&key), key);
        let item = format!("l:\n- {sign}\n  a: |\n\n  b\n");
        assert_eq!(compact_yaml(&item), item);
        let whole = format!("{sign}\n  a\n\n  b\n");
        assert_eq!(compact_yaml(&whole), whole);
    }
    assert_eq!(compact_yaml("a: x-\n\nb: |0\n\nc: 1\n"), "a: x-\nb: |0\nc: 1\n");
    assert_eq!(compact_yaml("a: |\n  x\nb: c|\n\nd: 1\n"), "a: |\n  x\nb: c|\nd: 1\n");
}

#[test]
fn texts_of_many_lines_survive_compaction() {
    let config = lib(&json(r#"{"a": ["x\n\ny"], "t": "one\n\ntwo\n", "z": {"k": "p\n\n\nq"}}"#));
    let mut compiler = TargetCompiler::mihomo();
    compiler.pretty = false;
    let yaml = compiler.compile(&config).unwrap();
    let read: serde_yml::Value = serde_yml::from_str(&yaml).unwrap();
    assert_eq!(read["a"][0].as_str(), Some("x\n\ny"));
    assert_eq!(read["t"].as_str(), Some("one\n\ntwo\n"));
    assert_eq!(read["z"]["k"].as_str(), Some("p\n\n\nq"));
}

#[test]
fn a_signal_step_by_step() {
    let compiler = TargetCompiler::default();
    let fault = |pid: u32| {
        compiler
            .notify_hot_reload(HotReloadStrategy::Signal { pid })
            .unwrap_err()
            .message()
    };
    assert!(fault(0).contains("无效的 PID: 0（不允许向所有进程广播信号）"));
    assert!(fault(1).contains("不允许向 PID 1 (init/systemd) 发送信号"));
    assert!(fault(2147483648)
        .contains("PID 2147483648 exceeds i32::MAX (2147483647), cannot send POSIX signal"));

    let probe = compiler
        .notify_hot_reload(HotReloadStrategy::Signal { pid: 42 })
        .unwrap();
    assert!(matches!(probe, ReloadStep::Probe { pid: 42 }));
    let lost = after_step(probe.clone(), ReloadEvent::Probed(SignalReply::NoProcess));
    assert!(lost.unwrap_err().message().contains(
        "目标进程不存在（PID=42），kill(pid, 0) 返回 ESRCH。可能已退出或 PID 错误。"
    ));
    let send = after_step(probe, ReloadEvent::Listed).unwrap();
    assert!(matches!(send, ReloadStep::SendSignal { pid: 42 }));
    let reply = |r: SignalReply| after_step(send.clone(), ReloadEvent::Signalled(r));
    match reply(SignalReply::Delivered).unwrap() {
        ReloadStep::Done(done) => assert_eq!(done.detail, "已向 PID 42 发送 SIGHUP 信号"),
        other => panic!("{:?}", other),
    }
    assert!(reply(SignalReply::NoProcess)
        .unwrap_err()
        .message()
        .contains("目标进程不存在（PID=42），可能已退出或 PID 错误"));
    assert!(reply(SignalReply::NotPermitted)
        .unwrap_err()
        .message()
        .contains("权限不足，无法向 PID 42 发送信号（可能需要 root/管理员权限）"));
    assert!(reply(SignalReply::Failed(-22))
        .unwrap_err()
        .message()
        .contains("发送 SIGHUP 信号失败，PID=42，错误码=-22"));
}

#[test]
fn a_request_step_by_step() {
    let compiler = TargetCompiler::default();
    let put = compiler
        .notify_hot_reload(HotReloadStrategy::HttpApi {
            url: "http://127.0.0.1:9090//".to_string(),
        })
        .unwrap();
    match &put {
        ReloadStep::Put { url } => assert_eq!(url, "http://127.0.0.1:9090/configs?force=true"),
        other => panic!("{:?}", other),
    }
    match after_step(put.clone(), ReloadEvent::Answered(204)).unwrap() {
        ReloadStep::Done(done) => {
            assert_eq!(done.to_text(), "[✅ http-api] HTTP API 热重载成功 (status=204)")
        }
        other => panic!("{:?}", other),
    }
    let refused = after_step(put.clone(), ReloadEvent::Refused(401)).unwrap_err();
    assert!(refused.message().contains("HTTP API 返回错误: 401"));
    let lost = after_step(put, ReloadEvent::Unanswered("timeout".to_string())).unwrap_err();
    assert!(lost.message().contains("HTTP API 请求失败: timeout"));
    assert_eq!(HotReloadStrategy::Off.to_text(), "none");
    assert_eq!(HotReloadStrategy::Signal { pid: 7 }.to_text(), "signal(pid=7)");
    let api = HotReloadStrategy::HttpApi { url: "u".to_string() };
    assert_eq!(api.to_text(), "http-api(u)");
}

#[test]
fn a_write_step_by_step() {
    let compiler = TargetCompiler::json_output().pretty(false);
    let config = lib(&json(r#"{"名": 1}"#));
    let mut write = compiler.atomic_write(&config, "dir/config.json", Some("dir")).unwrap();
    assert_eq!(write.output, r#"{"名":1}"#);
    assert_eq!(write.size(), 9);
    assert!(is_stale_temp(&write.temp_path, "dir/config.json"));
    assert_eq!(write.temp_path.len(), "dir/config.json.prism.tmp.".len() + 32);
    let end = write.temp_path.strip_prefix("dir/config.json.prism.tmp.").unwrap();
    assert!(end.chars().all(|c| c.is_ascii_digit() || ('a'..='f').contains(&c)));
    assert_eq!((write.parent.as_str(), write.fault.as_str()), ("dir", ""));
    for step in [
        WriteStep::MakeDirectory,
        WriteStep::Create,
        WriteStep::Write,
        WriteStep::Sync,
        WriteStep::CopyMode,
        WriteStep::Rename,
    ] {
        assert_eq!(write.step, step);
        write.advance(StepOutcome::Performed).unwrap();
    }
    assert_eq!(write.step, WriteStep::Done);
    assert!(!is_stale_temp("config.json.bak", "config.json"));
}

#[test]
fn a_write_across_file_systems() {
    let compiler = TargetCompiler::json_output();
    let config = lib(&json("{}"));
    let mut write = compiler.atomic_write(&config, "c", None).unwrap();
    assert_eq!((write.parent.as_str(), write.fault.as_str()), ("", ""));
    assert_eq!(write.step, WriteStep::Create);
    for _ in 0..4 {
        write.advance(StepOutcome::Performed).unwrap();
    }
    write.advance(StepOutcome::CrossDevice("EXDEV".to_string())).unwrap();
    assert_eq!(write.step, WriteStep::Copy);
    write.advance(StepOutcome::Performed).unwrap();
    assert_eq!(write.step, WriteStep::DropTemp);
    write.advance(StepOutcome::Failed("busy".to_string())).unwrap();
    assert_eq!(write.step, WriteStep::Done);
}

#[test]
fn faults_of_writes() {
    let compiler = TargetCompiler::json_output();
    let config = lib(&json("{}"));
    let failing = [
        "无法创建目标目录 d: why",
        "创建临时文件失败 TEMP: why",
        "写入临时文件失败 TEMP: why",
        "sync 临时文件失败 TEMP: why",
    ];
    for (n, text) in failing.iter().enumerate() {
        let mut write = compiler.atomic_write(&config, "c", Some("d")).unwrap();
        for _ in 0..n {
            write.advance(StepOutcome::Performed).unwrap();
        }
        let expected = text.replace("TEMP", &write.temp_path);
        let fault = write.advance(StepOutcome::Failed("why".to_string())).unwrap_err();
        assert!(fault.message().contains(&expected), "{}", fault.message());
    }
    let mut write = compiler.atomic_write(&config, "c", None).unwrap();
    for _ in 0..4 {
        write.advance(StepOutcome::Performed).unwrap();
    }
    assert_eq!(write.step, WriteStep::Rename);
    write.advance(StepOutcome::Failed("why".to_string())).unwrap();
    assert_eq!(write.step, WriteStep::Discard);
    let fault = write.advance(StepOutcome::Performed).unwrap_err();
    let expected = format!("原子替换失败 ({} → c): why", write.temp_path);
    assert!(fault.message().contains(&expected), "{}", fault.message());
}
