use weread::scraper::WeixinScraper;
use weread::server::sanitize_filename;

#[test]
fn test_image_filename_from_wx_fmt() {
    let scraper = WeixinScraper::new();
    let url = "https://mmbiz.qpic.cn/xxx?wx_fmt=png&other=1";
    let name = scraper.image_filename(url, 0);
    assert_eq!(name, "image_0.png");
}

#[test]
fn test_image_filename_from_url_path() {
    let scraper = WeixinScraper::new();
    let url = "https://example.com/image.jpg";
    let name = scraper.image_filename(url, 0);
    assert_eq!(name, "image.jpg");
}

#[test]
fn test_image_filename_unknown_ext_preserves_basename() {
    let scraper = WeixinScraper::new();
    let url = "https://example.com/image.unknown";
    let name = scraper.image_filename(url, 5);
    assert_eq!(name, "image.unknown");
}

#[test]
fn test_image_filename_no_ext_defaults_to_jpg() {
    let scraper = WeixinScraper::new();
    let url = "https://example.com/image";
    let name = scraper.image_filename(url, 3);
    assert_eq!(name, "image_3.jpg");
}

#[test]
fn test_sanitize_filename_keeps_chinese() {
    assert_eq!(sanitize_filename("一文讲透Skill"), "一文讲透Skill");
}

#[test]
fn test_sanitize_filename_replaces_special_chars() {
    assert_eq!(sanitize_filename("8:00 AI 早报"), "8_00 AI 早报");
}

#[test]
fn test_sanitize_filename_trims_edges() {
    assert_eq!(sanitize_filename("__hello__"), "hello");
}

#[test]
fn test_sanitize_filename_keeps_dot_and_hyphen() {
    assert_eq!(sanitize_filename("hello-world.test"), "hello-world.test");
}
