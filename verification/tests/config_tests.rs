use shellm::config::{render_prompt, SystemInfo, SystemProbe};

#[test]
fn test_render_prompt() {
    let mut vars: Vec<(String, String)> = Vec::new();
    vars.push(("os".to_string(), "Linux".to_string()));
    vars.push(("arch".to_string(), "x86_64".to_string()));
    vars.push(("shell".to_string(), "bash".to_string()));
    vars.push(("lang".to_string(), "zh-CN".to_string()));

    let template = "OS: {os}, Arch: {arch}, Shell: {shell}, Lang: {lang}";
    let result = render_prompt(template, &vars);
    assert_eq!(result, "OS: Linux, Arch: x86_64, Shell: bash, Lang: zh-CN");
}

#[test]
fn test_render_prompt_missing_var() {
    let vars: Vec<(String, String)> = Vec::new();
    let template = "Hello {name}!";
    let result = render_prompt(template, &vars);
    // Unreplaced variables are left as-is
    assert_eq!(result, "Hello {name}!");
}

#[test]
fn test_system_info_collect() {
    let probe = SystemProbe {
        os: "Linux".to_string(),
        arch: "x86_64".to_string(),
        shell_var: Some("/bin/bash".to_string()),
        windows: false,
        has_powershell: false,
        lang_var: None,
    };
    let info = SystemInfo::collect(Some("zh-CN"), &probe);
    assert!(!info.os.is_empty());
    assert!(!info.arch.is_empty());
    assert_eq!(info.lang, "zh-CN");
}

#[test]
fn test_collect_shell_basename() {
    let probe = SystemProbe {
        os: "Linux".to_string(),
        arch: "x86_64".to_string(),
        shell_var: Some("/usr/bin/zsh".to_string()),
        windows: false,
        has_powershell: false,
        lang_var: Some("zh_CN.UTF-8".to_string()),
    };
    let info = SystemInfo::collect(None, &probe);
    assert_eq!(info.shell, "zsh");
    assert_eq!(info.lang, "zh-CN");
}

#[test]
fn test_collect_lang_fallback() {
    let probe = SystemProbe {
        os: "Linux".to_string(),
        arch: "x86_64".to_string(),
        shell_var: None,
        windows: false,
        has_powershell: false,
        lang_var: None,
    };
    let info = SystemInfo::collect(None, &probe);
    assert_eq!(info.shell, "unknown");
    assert_eq!(info.lang, "en-US");
}

#[test]
fn test_to_vars_order() {
    let info = SystemInfo {
        os: "Linux".to_string(),
        arch: "x86_64".to_string(),
        shell: "bash".to_string(),
        lang: "en-US".to_string(),
    };
    let vars = info.to_vars();
    assert_eq!(vars.len(), 4);
    assert_eq!(vars[0], ("os".to_string(), "Linux".to_string()));
    assert_eq!(vars[1], ("arch".to_string(), "x86_64".to_string()));
    assert_eq!(vars[2], ("shell".to_string(), "bash".to_string()));
    assert_eq!(vars[3], ("lang".to_string(), "en-US".to_string()));
}

#[test]
fn test_detect_shell_unix() {
    assert_eq!(shellm::config::detect_shell(false, false, Some("/bin/fish")), "/bin/fish");
    assert_eq!(shellm::config::detect_shell(false, false, None), "/bin/bash");
    assert_eq!(shellm::config::detect_shell(true, true, None), "powershell.exe");
    assert_eq!(shellm::config::detect_shell(true, false, None), "cmd.exe");
}

#[test]
fn test_default_template_has_placeholders() {
    let t = shellm::config::default_prompt_template();
    assert!(t.contains("{os}"));
    assert!(t.contains("{arch}"));
    assert!(t.contains("{shell}"));
    assert!(t.contains("{lang}"));
}
