use bomber::settings::{default_name, Settings, DEFAULT_UDP_PORT};

#[test]
fn settings_survive_a_round_trip() {
    let settings = Settings {
        name: "Anna".into(),
        host: "10.0.0.5".into(),
        port: 47801,
        sound: false,
        bot: true,
    };
    let mut loaded = Settings::default();
    loaded.merge(&settings.to_text());
    assert_eq!(loaded, settings);
}

#[test]
fn an_address_may_carry_a_port() {
    let mut s = Settings::default();
    s.set_address("arena.local:5000");
    assert_eq!((s.host.as_str(), s.port), ("arena.local", 5000));
    s.set_address("192.168.1.9");
    assert_eq!((s.host.as_str(), s.port), ("192.168.1.9", 5000));
    s.set_address("[::1]:47800");
    assert_eq!((s.host.as_str(), s.port), ("::1", 47800));
}

#[test]
fn the_text_format_is_one_line_per_setting() {
    let s = Settings {
        name: "Bärbel".into(),
        host: "arena.local".into(),
        port: 5000,
        sound: true,
        bot: false,
    };
    assert_eq!(
        s.to_text(),
        "name=Bärbel\nhost=arena.local\nport=5000\nsound=1\nbot=0\n"
    );
}

#[test]
fn merging_skips_what_it_cannot_read() {
    let mut s = Settings::default();
    s.merge("junk\nport=99999\nport=+12\n  name =  Carla  \r\nhost=\nsound=x\nbot=yes\ncolour=red\n");
    assert_eq!(s.port, 12);
    assert_eq!(s.name, "Carla");
    assert_eq!(s.host, "127.0.0.1");
    assert!(s.sound);
    assert!(!s.bot);
}

#[test]
fn a_long_name_is_cut_to_24_characters() {
    let mut s = Settings::default();
    s.merge("name=ABCDEFGHIJKLMNOPQRSTUVWXYZ");
    assert_eq!(s.name, "ABCDEFGHIJKLMNOPQRSTUVWX");
}

#[test]
fn the_address_shows_the_port_only_when_it_differs() {
    let mut s = Settings::default();
    assert_eq!(s.address(), "127.0.0.1");
    s.port = 5000;
    assert_eq!(s.address(), "127.0.0.1:5000");
    let before = s.clone();
    s.set_address(&s.address());
    assert_eq!(s, before);
}

#[test]
fn a_name_with_several_colons_is_taken_whole() {
    let mut s = Settings::default();
    s.set_address("fe80::1");
    assert_eq!(s.host, "fe80::1");
    assert_eq!(s.port, DEFAULT_UDP_PORT);
    s.set_address("host:notaport");
    assert_eq!(s.host, "host:notaport");
}

#[test]
fn the_default_name_comes_from_the_account() {
    assert_eq!(default_name("anna\u{7}"), "anna");
    assert_eq!(default_name("\u{1}\u{2}"), "Spieler");
    assert_eq!(default_name(""), "Spieler");
    assert_eq!(Settings::defaults_for("ben").name, "ben");
    assert_eq!(Settings::default().port, 47800);
}

#[test]
fn the_menu_address_reads_back_unless_a_bracketed_host_has_a_port() {
    let mut s = Settings {
        name: "Anna".into(),
        host: "[abc".into(),
        port: 5000,
        sound: true,
        bot: false,
    };
    let before = s.clone();
    let a = s.address();
    s.set_address(&a);
    assert_eq!(s.host, before.host);
    assert_eq!(s.port, before.port);

    let mut v6 = Settings {
        host: "[::1]".into(),
        ..before.clone()
    };
    v6.port = DEFAULT_UDP_PORT;
    let a = v6.address();
    v6.set_address(&a);
    assert_eq!(v6.host, "[::1]");
}
