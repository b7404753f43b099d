use base64::Engine;
use aerodesk::pairing::{
    build_info, detect_hostname, detect_lan_ip, gen_token, hostname_or_default, lan_ip_or_loopback,
    load_or_init, qr_payload, qr_svg, record_bound_port, refresh_lan_ip, render_svg,
    resolve_config, set_host, ws_url, PairingConfig, QrMatrix, DEFAULT_NAME, DEFAULT_PORT,
    LOOPBACK_IP,
};

fn cfg(token: &str, port: u16, host: &str, name: &str, manual: bool) -> PairingConfig {
    PairingConfig {
        token: token.to_string(),
        port,
        host: host.to_string(),
        name: name.to_string(),
        host_manual: manual,
    }
}

#[test]
fn ws_url_is_host_and_port() {
    assert_eq!(ws_url(&cfg("t", 8765, "192.168.1.5", "Desk", false)), "ws://192.168.1.5:8765");
    assert_eq!(ws_url(&cfg("t", 0, "10.0.0.1", "Desk", false)), "ws://10.0.0.1:0");
    assert_eq!(ws_url(&cfg("t", 65535, "h", "Desk", false)), "ws://h:65535");
}

#[test]
fn ws_url_leaves_out_the_token() {
    let a = ws_url(&cfg("secret-one", 4000, "10.1.1.1", "Desk", false));
    let b = ws_url(&cfg("secret-two", 4000, "10.1.1.1", "Desk", false));
    assert_eq!(a, b);
    assert!(!a.contains("secret"));
}

#[test]
fn qr_payload_is_exact_json() {
    let p = qr_payload(&cfg("abc", 9000, "10.0.0.2", "Desk", false));
    assert_eq!(p, "{\"name\":\"Desk\",\"token\":\"abc\",\"url\":\"ws://10.0.0.2:9000\",\"v\":1}");
}

#[test]
fn qr_payload_parses_back() {
    let p = qr_payload(&cfg("tok\"en\\", 1234, "192.168.0.9", "Bob's \"Mac\"\n", false));
    let v: serde_json::Value = serde_json::from_str(&p).unwrap();
    assert_eq!(v.get("v").and_then(|x| x.as_i64()), Some(1));
    assert_eq!(v.get("url").and_then(|x| x.as_str()), Some("ws://192.168.0.9:1234"));
    assert_eq!(v.get("token").and_then(|x| x.as_str()), Some("tok\"en\\"));
    assert_eq!(v.get("name").and_then(|x| x.as_str()), Some("Bob's \"Mac\"\n"));
}

#[test]
fn qr_svg_draws_each_dark_module() {
    let payload = "hello";
    let svg = qr_svg(payload).unwrap();
    let code = qrcode::QrCode::new(payload.as_bytes()).unwrap();
    let width = code.width();
    assert_eq!(width, 21);
    let dim = (width + 8) * 8;
    let head = format!(
        "<svg xmlns=\"http://www.w3.org/2000/svg\" width=\"{dim}\" height=\"{dim}\" viewBox=\"0 0 {dim} {dim}\" shape-rendering=\"crispEdges\"><rect width=\"{dim}\" height=\"{dim}\" fill=\"#ffffff\"/>"
    );
    assert!(svg.starts_with(&head));
    assert!(svg.ends_with("</svg>"));
    #[allow(deprecated)]
    let dark = code.to_vec().iter().filter(|b| **b).count();
    assert_eq!(svg.matches("fill=\"#000000\"").count(), dark);
    assert!(svg.contains("<rect x=\"32\" y=\"32\" width=\"8\" height=\"8\" fill=\"#000000\"/>"));
}

#[test]
fn qr_svg_reports_data_too_long() {
    let payload = "x".repeat(8000);
    assert_eq!(qr_svg(&payload), Err("data too long".to_string()));
}

#[test]
fn render_svg_of_a_tiny_matrix() {
    let m = QrMatrix { width: 2, modules: vec![true, false, false, true] };
    let svg = render_svg(&m);
    assert_eq!(
        svg,
        "<svg xmlns=\"http://www.w3.org/2000/svg\" width=\"80\" height=\"80\" viewBox=\"0 0 80 80\" shape-rendering=\"crispEdges\"><rect width=\"80\" height=\"80\" fill=\"#ffffff\"/><rect x=\"32\" y=\"32\" width=\"8\" height=\"8\" fill=\"#000000\"/><rect x=\"40\" y=\"40\" width=\"8\" height=\"8\" fill=\"#000000\"/></svg>"
    );
}

#[test]
fn refresh_keeps_a_manual_host() {
    let mut c = cfg("t", 1, "192.168.1.50", "Desk", true);
    assert!(!refresh_lan_ip(&mut c, "10.0.0.7"));
    assert_eq!(c.host, "192.168.1.50");
}

#[test]
fn refresh_ignores_loopback() {
    let mut c = cfg("t", 1, "192.168.1.50", "Desk", false);
    assert!(!refresh_lan_ip(&mut c, LOOPBACK_IP));
    assert_eq!(c.host, "192.168.1.50");
}

#[test]
fn refresh_takes_a_new_address() {
    let mut c = cfg("t", 1, "192.168.1.50", "Desk", false);
    assert!(!refresh_lan_ip(&mut c, "192.168.1.50"));
    assert!(refresh_lan_ip(&mut c, "10.0.0.7"));
    assert_eq!(c, cfg("t", 1, "10.0.0.7", "Desk", false));
    assert!(!refresh_lan_ip(&mut c, "10.0.0.7"));
}

#[test]
fn resolve_config_without_file_makes_a_new_one() {
    let (c, save) = resolve_config(None, "10.0.0.3", "tok".to_string(), "box".to_string());
    assert!(save);
    assert_eq!(c, cfg("tok", DEFAULT_PORT, "10.0.0.3", "box", false));
}

#[test]
fn resolve_config_keeps_a_usable_file() {
    let loaded = cfg("keep", 4321, "192.168.1.2", "Desk", false);
    let (c, save) = resolve_config(Some(loaded.clone()), "192.168.1.2", "new".into(), "box".into());
    assert!(!save);
    assert_eq!(c, loaded);
    let (c, save) = resolve_config(Some(loaded), "192.168.1.9", "new".into(), "box".into());
    assert!(save);
    assert_eq!(c, cfg("keep", 4321, "192.168.1.9", "Desk", false));
}

#[test]
fn resolve_config_replaces_an_unusable_file() {
    let (c, save) = resolve_config(Some(cfg("", 4321, "h", "Desk", false)), "10.0.0.3", "tok".into(), "box".into());
    assert!(save);
    assert_eq!(c, cfg("tok", 0, "10.0.0.3", "box", false));
    let (c, _) = resolve_config(Some(cfg("t", 4321, "", "Desk", false)), "10.0.0.3", "tok".into(), "box".into());
    assert_eq!(c.token, "tok");
}

#[test]
fn set_host_trims_and_survives_restart() {
    let mut c = cfg("t", 7, "10.0.0.1", "Desk", false);
    set_host(&mut c, "  192.168.7.7 \n");
    assert_eq!(c, cfg("t", 7, "192.168.7.7", "Desk", true));
    let (c2, save) = resolve_config(Some(c.clone()), "10.9.9.9", "x".into(), "y".into());
    assert!(!save);
    assert_eq!(c2, c);
}

#[test]
fn record_bound_port_reports_a_change() {
    let mut c = cfg("t", 0, "h", "n", false);
    assert!(record_bound_port(&mut c, 50123));
    assert_eq!(c.port, 50123);
    assert!(!record_bound_port(&mut c, 50123));
}

#[test]
fn tokens_are_32_url_safe_chars() {
    let a = gen_token();
    let b = gen_token();
    assert_eq!(a.chars().count(), 32);
    assert!(a.chars().all(|c| c.is_ascii_alphanumeric() || c == '-' || c == '_'));
    assert_ne!(a, b);
    let bytes = base64::engine::general_purpose::URL_SAFE_NO_PAD.decode(&a).unwrap();
    assert_eq!(bytes.len(), 24);
    assert_eq!(base64::engine::general_purpose::URL_SAFE_NO_PAD.encode(&bytes), a);
}

#[test]
fn fallbacks_for_address_and_name() {
    assert_eq!(lan_ip_or_loopback(None), "127.0.0.1");
    assert_eq!(lan_ip_or_loopback(Some("10.2.3.4".into())), "10.2.3.4");
    assert_eq!(hostname_or_default(None), DEFAULT_NAME);
    assert_eq!(hostname_or_default(Some("studio".into())), "studio");
    assert!(!detect_lan_ip().is_empty());
    assert!(!detect_hostname().is_empty());
}

#[test]
fn load_or_init_without_file() {
    let (c, save) = load_or_init(None);
    assert!(save);
    assert_eq!(c.token.len(), 32);
    assert_eq!(c.port, DEFAULT_PORT);
    assert!(!c.host_manual);
    assert!(!c.host.is_empty());
}

#[test]
fn first_launch_config_survives_a_restart() {
    let (first, _) = load_or_init(None);
    let (second, _) = load_or_init(Some(first.clone()));
    assert_eq!(second.token, first.token);
    assert_eq!(second.port, first.port);
    assert_eq!(second.name, first.name);
    // a blank host is not usable: a new token is made
    let (fresh, save) = load_or_init(Some(cfg("old", 9000, "", "Desk", false)));
    assert!(save);
    assert_ne!(fresh.token, "old");
    assert!(!fresh.host.is_empty());
}

#[test]
fn load_or_init_keeps_manual_config() {
    let loaded = cfg("keep", 4321, "192.168.1.2", "Desk", true);
    let (c, save) = load_or_init(Some(loaded.clone()));
    assert!(!save);
    assert_eq!(c, loaded);
}

#[test]
fn build_info_carries_the_pairing() {
    let c = cfg("abc", 9000, "10.0.0.2", "Desk", false);
    let info = build_info(&c);
    assert_eq!(info.url, "ws://10.0.0.2:9000");
    assert_eq!(info.token, "abc");
    assert_eq!(info.host, "10.0.0.2");
    assert_eq!(info.port, 9000);
    assert_eq!(info.name, "Desk");
    assert_eq!(info.qr_svg, qr_svg(&qr_payload(&c)).unwrap());
}
