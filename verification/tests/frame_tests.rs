use hotcold::frame::AssetsDir;
use hotcold::frame::UpdateSize;

#[test]
fn assets_dir_keeps_its_path() {
    let d = AssetsDir::new(String::from("assets"));
    assert_eq!(d.path(), "assets");
    assert_eq!(d.0, "assets");
}

#[test]
fn resize_requests_refuse_empty_dimensions() {
    let mut pending: Option<(u32, u32)> = None;
    UpdateSize::request(&mut pending, (0, 600));
    assert_eq!(pending, None);
    UpdateSize::request(&mut pending, (800, 0));
    assert_eq!(pending, None);
    UpdateSize::request(&mut pending, (800, 600));
    assert_eq!(pending, Some((800, 600)));
    UpdateSize::request(&mut pending, (0, 0));
    assert_eq!(pending, Some((800, 600)));
}

#[test]
fn resize_runs_consume_the_pending_request() {
    let mut pending = Some((1024u32, 768u32));
    let mut size = (800u32, 600u32);
    assert!(UpdateSize::run(&mut pending, &mut size));
    assert_eq!(pending, None);
    assert_eq!(size, (1024, 768));
    assert!(!UpdateSize::run(&mut pending, &mut size));
    assert_eq!(size, (1024, 768));
}
