use govee::dreamview::{parse_target, Dreamview, Update};
use govee::packet::razer_colors;

#[test]
fn target_with_area_and_segments() {
    let t = parse_target("192.168.1.100:all:15").ok().unwrap();
    assert_eq!(t.ip, "192.168.1.100");
    assert_eq!(t.sides, vec!["all".to_string(); 15]);
    assert!(t.razer);
}

#[test]
fn target_with_side_list() {
    let t = parse_target("192.168.1.101:left,left,top,right").ok().unwrap();
    assert_eq!(t.ip, "192.168.1.101");
    assert_eq!(t.sides, vec!["left", "left", "top", "right"]);
    assert!(t.razer);
}

#[test]
fn target_ip_only() {
    let t = parse_target("10.0.0.7").ok().unwrap();
    assert_eq!(t.ip, "10.0.0.7");
    assert_eq!(t.sides, vec!["all"]);
    assert!(!t.razer);
}

#[test]
fn target_area_without_segments() {
    let t = parse_target("10.0.0.7:top").ok().unwrap();
    assert_eq!(t.sides, vec!["top"]);
    assert!(!t.razer);
    let t = parse_target("10.0.0.7:top:0").ok().unwrap();
    assert_eq!(t.sides, vec!["top"]);
    assert!(!t.razer);
}

#[test]
fn target_bad_segment_count() {
    assert!(parse_target("10.0.0.7:left:x").is_err());
    assert!(parse_target("10.0.0.7:left:").is_err());
    assert!(parse_target("10.0.0.7:a,b:-1").is_err());
}

#[test]
fn frames_render_once() {
    let mut d = Dreamview::new(1);
    assert!(d.begin_frame(5, 100));
    assert!(!d.begin_frame(5, 100));
    assert!(d.begin_frame(5, 60));
    assert!(d.begin_frame(6, 60));
    assert!(!Dreamview::new(1).begin_frame(0, 0));
}

#[test]
fn target_updates() {
    let mut d = Dreamview::new(2);
    match d.target_update(0, vec![[1, 2, 3], [4, 5, 6]], true, true) {
        Some(Update::Razer(p)) => assert_eq!(p, razer_colors(&[[4, 5, 6], [1, 2, 3]])),
        _ => panic!("expected a razer frame"),
    }
    assert!(d.target_update(0, vec![[1, 2, 3], [4, 5, 6]], true, true).is_none());
    assert_eq!(d.last[0], vec![[4, 5, 6], [1, 2, 3]]);
    match d.target_update(1, vec![[9, 9, 9]], false, false) {
        Some(Update::Colour(c)) => assert_eq!(c, [9, 9, 9]),
        _ => panic!("expected one colour"),
    }
    assert!(d.target_update(1, vec![[9, 9, 9]], false, false).is_none());
    assert!(d.target_update(1, vec![[9, 9, 8]], false, false).is_some());
}
