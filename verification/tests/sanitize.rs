//! Cleaning of texts, paths and encodings.

use clash_prism_core::sanitize::{
    has_parent_component, is_dangerous_unicode, is_noncharacter, is_other_format_control,
    read_config_file, remove_dangerous, sanitize_config_string,
    sanitize_config_string_with_whitelist, validate_path_within_workspace,
};

#[test]
fn test_sanitize_removes_zero_width() {
    // 零宽空格 U+200B
    let input = "hello\u{200B}world";
    assert_eq!(sanitize_config_string(input), "helloworld");

    // 零宽不连字 U+200C
    let input = "hello\u{200C}world";
    assert_eq!(sanitize_config_string(input), "helloworld");

    // 零宽连字 U+200D
    let input = "hello\u{200D}world";
    assert_eq!(sanitize_config_string(input), "helloworld");
}

#[test]
fn test_sanitize_removes_direction_controls() {
    // 左到右标记 U+200E
    let input = "hello\u{200E}world";
    assert_eq!(sanitize_config_string(input), "helloworld");

    // 右到左标记 U+200F
    let input = "hello\u{200F}world";
    assert_eq!(sanitize_config_string(input), "helloworld");

    // 左到右覆盖 U+202A
    let input = "hello\u{202A}world";
    assert_eq!(sanitize_config_string(input), "helloworld");

    // 右到左覆盖 U+202E
    let input = "hello\u{202E}world";
    assert_eq!(sanitize_config_string(input), "helloworld");
}

#[test]
fn test_sanitize_removes_bom() {
    // BOM U+FEFF
    let input = "\u{FEFF}hello world";
    assert_eq!(sanitize_config_string(input), "hello world");
}

#[test]
fn test_sanitize_removes_private_use() {
    // 私用区 U+E000
    let input = "hello\u{E000}world";
    assert_eq!(sanitize_config_string(input), "helloworld");
}

#[test]
fn test_sanitize_removes_noncharacters() {
    // 非字符 U+FFFE
    let input = "hello\u{FFFE}world";
    assert_eq!(sanitize_config_string(input), "helloworld");

    // 非字符 U+FFFF
    let input = "hello\u{FFFF}world";
    assert_eq!(sanitize_config_string(input), "helloworld");
}

#[test]
fn test_sanitize_preserves_normal_text() {
    let input = "Hello, World! 你好世界 123";
    assert_eq!(sanitize_config_string(input), "Hello, World! 你好世界 123");
}

#[test]
fn test_sanitize_preserves_soft_hyphen() {
    // U+00AD 软连字符应保留
    let input = "hello\u{00AD}world";
    assert_eq!(sanitize_config_string(input), "hello\u{00AD}world");
}

#[test]
fn test_sanitize_iterates_to_stable() {
    // 多层嵌套的危险字符应在迭代中全部被清除
    let input = "\u{200B}\u{FEFF}\u{200E}clean\u{200D}\u{202A}";
    let result = sanitize_config_string(input);
    assert_eq!(result, "clean");
}

#[test]
fn test_sanitize_empty_string() {
    assert_eq!(sanitize_config_string(""), "");
}

#[test]
fn test_sanitize_all_dangerous() {
    let input = "\u{200B}\u{200C}\u{200D}\u{FEFF}\u{200E}\u{200F}";
    assert_eq!(sanitize_config_string(input), "");
}

#[test]
fn test_read_config_utf8_bom() {
    // UTF-8 BOM + 内容
    let mut bytes = vec![0xEF, 0xBB, 0xBF];
    bytes.extend_from_slice(b"hello world");

    let content = read_config_file(&bytes);
    assert_eq!(content, "hello world");
}

#[test]
fn test_read_config_utf16le_bom() {
    // UTF-16 LE BOM + "Hi" 的 UTF-16 LE 编码
    let mut bytes = vec![0xFF, 0xFE]; // BOM
    bytes.extend_from_slice(&('H' as u16).to_le_bytes());
    bytes.extend_from_slice(&('i' as u16).to_le_bytes());

    let content = read_config_file(&bytes);
    assert_eq!(content, "Hi");
}

#[test]
fn test_read_config_no_bom() {
    let content = read_config_file(b"plain text");
    assert_eq!(content, "plain text");
}

#[test]
fn test_read_config_invalid_utf8_fallback() {
    // 非法 UTF-8 字节
    let content = read_config_file(b"hello\xFF\xFEworld");
    // lossy 转换，非法字节被替换为 U+FFFD
    assert!(content.contains("hello"));
    assert!(content.contains("world"));
}

#[test]
fn test_is_noncharacter() {
    assert!(is_noncharacter('\u{FFFE}'));
    assert!(is_noncharacter('\u{FFFF}'));
    assert!(is_noncharacter('\u{1FFFE}'));
    assert!(is_noncharacter('\u{1FFFF}'));
    assert!(is_noncharacter('\u{10FFFE}'));
    assert!(is_noncharacter('\u{10FFFF}'));
    assert!(!is_noncharacter('A'));
    assert!(!is_noncharacter('\u{0041}'));
}

#[test]
fn test_sanitize_iterative_stability_normalization() {
    // 验证 NFKC 迭代清洗在正常输入上快速收敛
    // 注意：NFKC 会将全角标点（如 ！U+FF01）归一化为半角（! U+0021）
    let input = "Hello 世界！";
    let result = sanitize_config_string(input);
    assert_eq!(result, "Hello 世界!"); // ！被 NFKC 归一化为 !
}

#[test]
fn test_sanitize_dangerous_unicode_removal() {
    // 零宽字符应被移除
    let input = "Hello\u{200B}World"; // U+200B 零宽空格
    let result = sanitize_config_string(input);
    assert_eq!(result, "HelloWorld");
}

#[test]
fn test_sanitize_bom_removal() {
    // BOM 应被移除
    let input = "\u{FEFF}Hello";
    let result = sanitize_config_string(input);
    assert_eq!(result, "Hello");
}

#[test]
fn test_sanitize_direction_control_removal() {
    // 方向控制字符应被移除
    let input = "Hello\u{200E}World"; // U+200E LRM
    let result = sanitize_config_string(input);
    assert_eq!(result, "HelloWorld");
}

#[test]
fn paths_inside_and_outside_a_workspace() {
    let check = |path: &str, dir: &str| {
        validate_path_within_workspace(path.as_bytes(), dir.as_bytes(), b"/", path, dir)
    };
    assert!(check("/safe/dir", "/safe/dir").is_ok());
    assert!(check("/safe/dir/config.yaml", "/safe/dir").is_ok());
    assert_eq!(
        check("/safe/dir-other/file", "/safe/dir").unwrap_err(),
        "路径 '/safe/dir-other/file' 解析后不在工作空间 '/safe/dir' 范围内（可能通过符号链接绕过）"
    );
    assert!(check("/safe", "/safe/dir").is_err());
    assert!(check("/other/dir/file", "/safe/dir").is_err());
    // 反斜杠只有在列为分隔符时才算分隔符
    assert!(check("C:\\dir\\file", "C:\\dir").is_err());
    assert!(validate_path_within_workspace(b"C:\\dir\\file", b"C:\\dir", b"/\\", "", "").is_ok());
}

#[test]
fn parent_components_are_found() {
    assert!(has_parent_component(b"..", b"/"));
    assert!(has_parent_component(b"../etc", b"/"));
    assert!(has_parent_component(b"/safe/../etc", b"/"));
    assert!(has_parent_component(b"/safe/..", b"/"));
    assert!(!has_parent_component(b"/safe/..name", b"/"));
    assert!(!has_parent_component(b"/safe/name..", b"/"));
    assert!(!has_parent_component(b"/safe/.../x", b"/"));
    assert!(!has_parent_component(b"", b"/"));
    assert!(!has_parent_component(b"a\\..\\b", b"/"));
    assert!(has_parent_component(b"a\\..\\b", b"/\\"));
    assert!(has_parent_component(b"C:..\\x", b"/\\"));
    assert!(has_parent_component(b"c:..", b"/\\"));
    assert!(!has_parent_component(b"C:..x", b"/\\"));
    assert!(!has_parent_component(b"C:..", b"/"));
    assert!(!has_parent_component(b"1:..", b"/\\"));
}

#[test]
fn utf16_in_both_byte_orders() {
    // 大端，一个代理对，一个落单的代理项，末尾的单个字节被丢弃
    let mut bytes = vec![0xFE, 0xFF];
    for unit in ['中' as u16, 0xD83D, 0xDE00, 0xD83D, 'x' as u16, 0xDE00] {
        bytes.extend_from_slice(&unit.to_be_bytes());
    }
    bytes.push(0x41);
    assert_eq!(read_config_file(&bytes), "中😀\u{FFFD}x\u{FFFD}");
    assert_eq!(read_config_file(&[0xFF, 0xFE]), "");
    assert_eq!(read_config_file(&[0xEF, 0xBB]), "\u{FFFD}");
}

#[test]
fn format_controls_of_every_script_are_dangerous() {
    for c in [
        '\u{0600}', '\u{061C}', '\u{06DD}', '\u{070F}', '\u{0890}', '\u{08E2}', '\u{180E}',
        '\u{2060}', '\u{2064}', '\u{2066}', '\u{206F}', '\u{FFF9}', '\u{110BD}', '\u{13430}',
        '\u{1BCA0}', '\u{1D173}', '\u{E0001}', '\u{E007F}',
    ] {
        assert!(is_other_format_control(c), "{:?}", c);
        assert!(is_dangerous_unicode(c), "{:?}", c);
    }
    assert!(!is_dangerous_unicode('\u{2065}'));
    assert!(!is_dangerous_unicode('\u{00AD}'));
    assert!(!is_other_format_control('\u{200B}'));
    assert!(is_dangerous_unicode('\u{F0000}') && is_dangerous_unicode('\u{10FFFD}'));
}

#[test]
fn a_whitelist_switches_normalisation_off() {
    let input = "Ａ\u{200B}！";
    assert_eq!(sanitize_config_string(input), "A!");
    assert_eq!(sanitize_config_string_with_whitelist(input, &["name"]), "Ａ！");
    assert_eq!(remove_dangerous(input), "Ａ！");
}
