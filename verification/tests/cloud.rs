use govee::cloud::{
    aes_ecb, country_code, country_from_lang, curl_args, expire_millis, jwt_exp, login_client,
    login_token, needs_refresh, pick_mac, qr_step, qr_store_keys, refresh_reply_complete, reply_ok,
    timezone, zone_of_link, Ident, QrStep,
};

const TOKEN: &str = "eyJhbGciOiJIUzI1NiJ9.eyJleHAiOjE3MDAwMDAwMDB9.c2ln";

#[test]
fn identities() {
    let p = Ident::phone("abc".into());
    assert_eq!((p.client.as_str(), p.client_type, p.token.as_str()), ("abc", 1, ""));
    let d = Ident::desktop("aa:bb".into());
    assert_eq!((d.client.as_str(), d.client_type, d.token.as_str()), ("aa:bb", 7, ""));
    let s = Ident::from_store(Some("c".into()), Some(7), Some("t".into()));
    assert_eq!((s.client.as_str(), s.client_type, s.token.as_str()), ("c", 7, "t"));
    let s = Ident::from_store(None, None, None);
    assert_eq!((s.client.as_str(), s.client_type, s.token.as_str()), ("", 1, ""));
    assert_eq!(Ident::from_store(None, Some(263), None).client_type, 7);
}

#[test]
fn mac_choice() {
    let e = |n: &str, a: Option<&str>| (n.to_string(), a.map(|s| s.to_string()));
    assert_eq!(pick_mac(&vec![]), "02:00:00:00:00:01");
    assert_eq!(
        pick_mac(&vec![
            e("lo", Some("00:11:22:33:44:55\n")),
            e("eth0", None),
            e("dummy", Some("00:00:00:00:00:00\n")),
            e("wlan0", Some("  \n")),
            e("enp3s0", Some("aa:bb:cc:dd:ee:ff\n")),
            e("wlp2s0", Some("11:22:33:44:55:66\n")),
        ]),
        "aa:bb:cc:dd:ee:ff"
    );
}

#[test]
fn aes_ecb_command_line() {
    let c = aes_ecb(true, "0123456789abcdef0123456789abcdef", b"hi");
    assert_eq!(c.args[..4], ["enc", "-aes-256-ecb", "-e", "-K"]);
    assert_eq!(c.args[4], "3031323334353637383961626364656630313233343536373839616263646566");
    assert_eq!(c.args[5], "-nosalt");
    assert_eq!(c.input, b"hi");
    assert_eq!(aes_ecb(false, "k", &[]).args[2], "-d");
    assert_eq!(aes_ecb(false, "k", &[]).args[4], "6b");
}

#[test]
fn jwt_expiry() {
    assert_eq!(jwt_exp(TOKEN), Some(1_700_000_000));
    assert_eq!(jwt_exp("nodots"), None);
    assert_eq!(jwt_exp("a.e30.b"), None);
    assert_eq!(jwt_exp("a.!!!.b"), None);
    assert_eq!(jwt_exp("a.eyJleHAiOi0xfQ"), None);
}

#[test]
fn refresh_decision() {
    assert!(!needs_refresh(Some(1), "", 0));
    assert!(!needs_refresh(None, "", 0));
    assert!(!needs_refresh(Some(1), "", u64::MAX));
    assert!(needs_refresh(Some(7), "", 0));
    assert!(!needs_refresh(Some(7), TOKEN, 1_699_999_000));
    assert!(needs_refresh(Some(7), TOKEN, 1_699_999_941));
    assert!(!needs_refresh(Some(7), TOKEN, 1_699_999_940));
}

#[test]
fn login_client_choice() {
    assert_eq!(login_client(Some(1), Some("keep".into()), &[1, 2]), "keep");
    assert_eq!(login_client(Some(7), Some("keep".into()), &[1, 2]), "0102");
    assert_eq!(login_client(Some(1), None, &[0xff]), "ff");
    assert_eq!(login_client(None, None, &[0; 16]), "00000000000000000000000000000000");
}

#[test]
fn zone_names() {
    assert_eq!(zone_of_link("/usr/share/zoneinfo/Europe/Berlin"), Some("Europe/Berlin".to_string()));
    assert_eq!(zone_of_link("/a/zoneinfo/b/zoneinfo/c"), Some("b/".to_string()));
    assert_eq!(zone_of_link("/etc/UTC"), None);
    assert_eq!(timezone(Some("Asia/Tokyo".into()), Some("/usr/share/zoneinfo/Europe/Berlin".into())), "Asia/Tokyo");
    assert_eq!(timezone(None, Some("/usr/share/zoneinfo/Europe/Berlin".into())), "Europe/Berlin");
    assert_eq!(timezone(None, Some("/etc/x".into())), "UTC");
    assert_eq!(timezone(None, None), "UTC");
}

#[test]
fn countries() {
    assert_eq!(country_from_lang(Some("de_AT.UTF-8".into())), "AT");
    assert_eq!(country_from_lang(Some("en_us".into())), "US");
    assert_eq!(country_from_lang(Some("fr_be".into())), "BE");
    assert_eq!(country_from_lang(Some("C".into())), "US");
    assert_eq!(country_from_lang(Some("C.UTF-8".into())), "US");
    assert_eq!(country_from_lang(Some("x_ABC".into())), "US");
    assert_eq!(country_from_lang(None), "US");
    assert_eq!(country_code(Some("NZ".into())), "NZ");
    assert_eq!(country_code(Some("É".into())), "É");
    assert_eq!(country_code(Some("NZL".into())), "US");
}

#[test]
fn curl_for_desktop() {
    let mut id = Ident::desktop("aa:bb".into());
    id.token = "tok".into();
    let a = curl_args("POST", "/x", Some("{}"), &id, "host\n", "Europe/Berlin", "DE", 5);
    let expect: Vec<&str> = vec![
        "-sS", "--compressed", "-m", "90", "-X", "POST", "https://app2.govee.com/x",
        "-H", "Content-Type: application/json", "-H", "Authorization: Bearer tok",
        "-H", "clientid: aa:bb", "-H", "clientType: 7", "-H", "appVersion: 2.40.60",
        "-H", "pcversion: 2.40.60", "-H", "clientName: host", "-H", "model: PC",
        "-H", "sysVersion: Microslop Windows 11", "-H", "timezone: Europe/Berlin",
        "-H", "country: DE", "-H", "Accept-Language: en", "-H", "User-Agent: RestSharp/112.0.0.0",
        "-d", "{}",
    ];
    assert_eq!(a, expect);
}

#[test]
fn curl_for_phone() {
    let id = Ident::phone("cid".into());
    let a = curl_args("GET", "/y", None, &id, "", "", "", 1_700_000_000_123);
    let expect: Vec<&str> = vec![
        "-sS", "--compressed", "-m", "90", "-X", "GET", "https://app2.govee.com/y",
        "-H", "Content-Type: application/json", "-H", "Authorization: Bearer ",
        "-H", "clientId: cid", "-H", "clientType: 1", "-H", "appVersion: 5.6.01",
        "-H", "iotVersion: 0", "-H", "timestamp: 1700000000123",
        "-H", "User-Agent: GoveeHome/5.6.01 (com.ihoment.GoVeeSensor; build:2; iOS 16.5.0) Alamofire/5.6.4",
    ];
    assert_eq!(a, expect);
}

#[test]
fn qr_steps() {
    assert!(matches!(qr_step("UNUSED", false), QrStep::Wait));
    assert!(matches!(qr_step("UNUSED", true), QrStep::Wait));
    assert!(matches!(qr_step("SCANNED", true), QrStep::Done));
    assert!(matches!(qr_step("EXPIRED", false), QrStep::Fail));
    assert!(matches!(qr_step("INVALID", false), QrStep::Fail));
    assert!(matches!(qr_step("SCANNED", false), QrStep::Report));
}

#[test]
fn reply_and_login_helpers() {
    assert!(reply_ok(Some(200)));
    assert!(!reply_ok(Some(400)));
    assert!(!reply_ok(None));
    assert_eq!(login_token(Some("a".into()), Some("b".into())), Some("a".to_string()));
    assert_eq!(login_token(None, Some("b".into())), Some("b".to_string()));
    assert_eq!(login_token(None, None), None);
    assert_eq!(
        qr_store_keys(),
        vec!["refreshToken", "accountId", "email", "topic", "headPortrait", "tokenExpireTime"]
    );
    assert!(refresh_reply_complete(false, false));
    assert!(!refresh_reply_complete(true, false));
    assert!(!refresh_reply_complete(false, true));
    assert_eq!(expire_millis(jwt_exp(TOKEN)), 1_700_000_000_000);
    assert_eq!(expire_millis(None), 0);
}
