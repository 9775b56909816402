use govee::base64::b64;
use govee::scene::{
    find_scene, lan_commands_for, scene_name, scenes_from_catalog, CatalogCategory, CatalogEffect,
    CatalogScene, Scene,
};

#[test]
fn builtin_scene_sends_only_select() {
    assert_eq!(lan_commands_for(&[], 0x1234), vec!["MwUENBIAAAAAAAAAAAAAAAAAABQ="]);
}

#[test]
fn scene_upload_two_lines() {
    let data: Vec<u8> = (1..=20).collect();
    assert_eq!(
        lan_commands_for(&data, 7),
        vec!["owABAgIBAgMEBQYHCAkKCwwNDq0=", "o/8PEBESExQAAAAAAAAAAAAAAEc=", "MwUEBwAAAAAAAAAAAAAAAAAAADU="]
    );
}

#[test]
fn scene_upload_exactly_one_line() {
    let data: Vec<u8> = (0..14).collect();
    assert_eq!(lan_commands_for(&data, 1), vec!["o/8BAQIAAQIDBAUGBwgJCgsMDV8=", "MwUEAQAAAAAAAAAAAAAAAAAAADM="]);
}

#[test]
fn scene_upload_full_continuation_line() {
    let data: Vec<u8> = (0..31).collect();
    assert_eq!(
        lan_commands_for(&data, 300),
        vec!["owABAgIAAQIDBAUGBwgJCgsMDaM=", "o/8ODxAREhMUFRYXGBkaGxwdHkI=", "MwUELAEAAAAAAAAAAAAAAAAAAB8="]
    );
}

fn scene(id: &str, name: &str, param: &str, code: u16) -> Scene {
    Scene {
        id: id.into(),
        name: name.into(),
        category: String::new(),
        icon: String::new(),
        scene_id: "1".into(),
        param_id: id.into(),
        code,
        param: param.into(),
    }
}

#[test]
fn scene_lan_commands_decode_param() {
    let data: Vec<u8> = (1..=20).collect();
    let sc = scene("5", "Sunrise", &b64(&data), 7);
    assert_eq!(sc.lan_commands(), lan_commands_for(&data, 7));
}

#[test]
fn scene_names() {
    assert_eq!(scene_name("Sunrise", "", 2), "Sunrise");
    assert_eq!(scene_name("Sunrise", "B", 1), "Sunrise");
    assert_eq!(scene_name("Sunrise", "B", 2), "Sunrise B");
}

#[test]
fn catalog_flattens_effects() {
    let effect = |name: &str, id: &str, code: Option<u64>| CatalogEffect {
        name: name.into(),
        param_id: id.into(),
        code,
        param: "AQ==".into(),
    };
    let cats = vec![
        CatalogCategory {
            name: "Natural".into(),
            scenes: vec![
                CatalogScene {
                    name: "Sunrise".into(),
                    icon: "u1".into(),
                    scene_id: "10".into(),
                    effects: vec![effect("A", "100", Some(65537)), effect("", "101", None)],
                },
                CatalogScene { name: "Empty".into(), icon: "".into(), scene_id: "11".into(), effects: vec![] },
            ],
        },
        CatalogCategory {
            name: "Life".into(),
            scenes: vec![CatalogScene {
                name: "Party".into(),
                icon: "u2".into(),
                scene_id: "null".into(),
                effects: vec![effect("X", "null", Some(42))],
            }],
        },
    ];
    let out = scenes_from_catalog(&cats);
    assert_eq!(out.len(), 3);
    assert_eq!((out[0].id.as_str(), out[0].name.as_str(), out[0].code), ("100", "Sunrise A", 1));
    assert_eq!((out[1].id.as_str(), out[1].name.as_str(), out[1].code), ("101", "Sunrise", 0));
    assert_eq!((out[2].name.as_str(), out[2].category.as_str(), out[2].code), ("Party", "Life", 42));
    assert_eq!(out[0].category, "Natural");
    assert_eq!(out[0].icon, "u1");
    assert_eq!(out[0].scene_id, "10");
    assert_eq!(out[0].param_id, "100");
    assert_eq!(out[0].param, "AQ==");
}

#[test]
fn find_scene_by_id_or_name() {
    let scenes = vec![scene("1", "Sunrise", "", 1), scene("2", "Sunset Glow", "", 2), scene("sunset glow", "x", "", 3)];
    assert_eq!(find_scene(&scenes, "2"), Some(1));
    assert_eq!(find_scene(&scenes, "SUNSET glow"), Some(1));
    assert_eq!(find_scene(&scenes, "sunrise"), Some(0));
    assert_eq!(find_scene(&scenes, "Moon"), None);
}

#[test]
fn scene_commands_decode_to_checked_lines() {
    let data: Vec<u8> = (0..100).map(|i| (i * 7) as u8).collect();
    let cmds = lan_commands_for(&data, 0xBEEF);
    let mut payload = Vec::new();
    for (j, c) in cmds.iter().enumerate() {
        let p = govee::base64::b64decode(c);
        assert_eq!(p.len(), 20);
        assert_eq!(p.iter().fold(0, |a, b| a ^ b), 0);
        if j + 1 < cmds.len() {
            assert_eq!(p[0], 0xa3);
            payload.extend_from_slice(if j == 0 { &p[5..19] } else { &p[2..19] });
        } else {
            assert_eq!(&p[..5], &[0x33, 0x05, 0x04, 0xEF, 0xBE]);
        }
    }
    payload.truncate(data.len());
    assert_eq!(payload, data);
    let lines = cmds.len() - 1;
    assert_eq!(govee::base64::b64decode(&cmds[0])[3] as usize, lines);
    assert_eq!(govee::base64::b64decode(&cmds[lines - 1])[1], 0xff);
}

#[test]
fn builtin_rainbow_and_sunrise() {
    assert_eq!(lan_commands_for(&[], 22), vec!["MwUEFgAAAAAAAAAAAAAAAAAAACQ="]);
    assert_eq!(lan_commands_for(&[], 0), vec!["MwUEAAAAAAAAAAAAAAAAAAAAADI="]);
}

#[test]
fn select_command_code_low_byte_first() {
    let cmds = lan_commands_for(&[1, 2, 3], 16182);
    assert_eq!(cmds.len(), 2);
    assert_eq!(cmds[1], "MwUENj8AAAAAAAAAAAAAAAAAADs=");
    assert_eq!(govee::base64::b64decode(&cmds[0])[..8], [0xa3, 0xff, 0x01, 0x01, 0x02, 1, 2, 3]);
}
