use weread::error::AppError;
use weread::parser::ArticleData;
use weread::scraper::{FetchAction, FetchEvent, WeixinScraper};
use weread::server::{output_base_dir, output_folder_name, sanitize_filename, validate_article_url};

fn article(title: &str) -> ArticleData {
    ArticleData {
        title: title.to_string(),
        author: String::new(),
        publish_time: String::new(),
        content: String::new(),
        content_markdown: String::new(),
        images: vec![],
    }
}

#[test]
fn cache_returns_stored_article() {
    let mut s = WeixinScraper::new();
    assert!(s.cached_article("u1").is_none());
    s.remember_article("u1", article("one"));
    s.remember_article("u2", article("two"));
    s.remember_article("u1", article("uno"));
    assert_eq!(s.cached_article("u1").unwrap().title, "uno");
    assert_eq!(s.cached_article("u2").unwrap().title, "two");
}

#[test]
fn full_cache_is_emptied_before_storing() {
    let mut s = WeixinScraper::new();
    for i in 0..50 {
        s.remember_article(&format!("u{}", i), article("x"));
    }
    assert!(s.cached_article("u0").is_some());
    assert!(s.cached_article("u49").is_some());
    s.remember_article("new", article("n"));
    assert!(s.cached_article("u0").is_none());
    assert!(s.cached_article("u49").is_none());
    assert_eq!(s.cached_article("new").unwrap().title, "n");
}

#[test]
fn fetch_retries_with_backoff_then_fails() {
    let s = WeixinScraper::new();
    let (mut state, action) = s.begin_fetch();
    assert!(matches!(action, FetchAction::Send { delay_secs: 0 }));
    let mut delays = vec![];
    loop {
        let (next, action) = s.fetch_step(
            state,
            FetchEvent::SendFailed { timed_out: false, message: "refused".to_string() },
        );
        state = next;
        match action {
            FetchAction::Send { delay_secs } => delays.push(delay_secs),
            FetchAction::Failed(AppError::HttpError(m)) => {
                assert_eq!(m, "refused");
                break;
            }
            _ => panic!("unexpected action"),
        }
    }
    assert_eq!(delays, vec![1, 3, 9]);
}

#[test]
fn fetch_reports_status_and_timeout_errors() {
    let s = WeixinScraper::new();
    let (state, _) = s.begin_fetch();
    let (state, a) = s.fetch_step(state, FetchEvent::Responded { status: 200, reason: Some("OK".to_string()) });
    assert!(matches!(a, FetchAction::ReadBody));
    let (state, a) = s.fetch_step(state, FetchEvent::Responded { status: 404, reason: None });
    assert!(matches!(a, FetchAction::Send { delay_secs: 1 }));
    let (state, _) = s.fetch_step(state, FetchEvent::BodyFailed("cut".to_string()));
    let (state, _) = s.fetch_step(state, FetchEvent::SendFailed { timed_out: true, message: "slow".to_string() });
    let (_, a) = s.fetch_step(state, FetchEvent::Responded { status: 503, reason: None });
    match a {
        FetchAction::Failed(AppError::HttpError(m)) => assert_eq!(m, "503 unknown"),
        _ => panic!("expected failure"),
    }
    let (st, _) = s.begin_fetch();
    let (st, _) = s.fetch_step(st, FetchEvent::SendFailed { timed_out: true, message: "a".to_string() });
    let (st, _) = s.fetch_step(st, FetchEvent::SendFailed { timed_out: true, message: "b".to_string() });
    let (st, _) = s.fetch_step(st, FetchEvent::SendFailed { timed_out: true, message: "c".to_string() });
    match s.fetch_step(st, FetchEvent::SendFailed { timed_out: true, message: "d".to_string() }).1 {
        FetchAction::Failed(AppError::HttpError(m)) => assert_eq!(m, "请求超时: d"),
        _ => panic!("expected timeout"),
    }
}

#[test]
fn fetch_parses_body() {
    let s = WeixinScraper::new();
    let (state, _) = s.begin_fetch();
    let html = "<html><head><meta property=\"og:title\" content=\"T\"></head><body></body></html>";
    match s.fetch_step(state, FetchEvent::BodyRead(html.to_string())).1 {
        FetchAction::Done(a) => assert_eq!(a.title, "T"),
        _ => panic!("expected an article"),
    }
}

#[test]
fn image_downloads_are_planned_in_order() {
    let s = WeixinScraper::new();
    let images = vec![
        "  ".to_string(),
        " https://x/a.png ".to_string(),
        "https://mmbiz.qpic.cn/b?wx_fmt=gif".to_string(),
        "https://mmbiz.qpic.cn/c/".to_string(),
    ];
    let plan: Vec<(String, String)> =
        s.plan_image_downloads(&images).into_iter().map(|d| (d.url, d.filename)).collect();
    assert_eq!(
        plan,
        vec![
            ("https://x/a.png".to_string(), "a.png".to_string()),
            ("https://mmbiz.qpic.cn/b?wx_fmt=gif".to_string(), "image_1.gif".to_string()),
            ("https://mmbiz.qpic.cn/c/".to_string(), "image_2.jpg".to_string()),
        ]
    );
}

#[test]
fn image_filename_other_cases() {
    let s = WeixinScraper::new();
    assert_eq!(s.image_filename("https://a/pic.PNG?wx_fmt=other", 7), "pic.PNG");
    assert_eq!(s.image_filename("https://a/pic?x=1&wx_fmt=jpeg", 12), "image_12.jpeg");
    assert_eq!(s.image_filename("https://a/pic?wx_fmt=tiff", 2), "image_2.jpg");
    assert_eq!(s.image_filename("https://a/p.webp", 2), "p.webp");
}

#[test]
fn downloads_localize_markdown() {
    let s = WeixinScraper::new();
    let done = vec![
        ("https://a/1.png".to_string(), "image_0.png".to_string()),
        ("https://a/2.png".to_string(), "image_1.png".to_string()),
        ("https://a/1.png".to_string(), "image_2.png".to_string()),
    ];
    let distinct = s.distinct_downloads(&done);
    assert_eq!(
        distinct,
        vec![
            ("https://a/2.png".to_string(), "image_1.png".to_string()),
            ("https://a/1.png".to_string(), "image_2.png".to_string()),
        ]
    );
    let md = "![](https://a/1.png) ![](https://a/2.png) https://a/1.png";
    assert_eq!(
        s.localize_image_links(md, &distinct),
        "![](images/image_2.png) ![](images/image_1.png) images/image_2.png"
    );
}

#[test]
fn article_urls_are_checked() {
    assert!(validate_article_url("https://mp.weixin.qq.com/s/abc").is_ok());
    assert_eq!(
        validate_article_url("http://example.com").unwrap_err(),
        "Invalid URL format. Must be a Weixin article URL (https://mp.weixin.qq.com/s/xxx). Got: http://example.com"
    );
}

#[test]
fn output_folder_names() {
    assert_eq!(output_folder_name("___"), "untitled");
    assert_eq!(output_folder_name("a/b"), "a_b");
    let long: String = std::iter::repeat('字').take(100).collect();
    assert_eq!(output_folder_name(&long).chars().count(), 80);
    assert_eq!(sanitize_filename(" <x> "), "x");
}

#[test]
fn output_base_choice() {
    assert_eq!(output_base_dir(Some("d".to_string()), Some("e".to_string())), "d");
    assert_eq!(output_base_dir(Some(String::new()), Some("e".to_string())), "e");
    assert_eq!(output_base_dir(None, Some(String::new())), "output");
}

#[test]
fn fetch_reports_body_read_failure_last() {
    let s = WeixinScraper::new();
    let (mut st, _) = s.begin_fetch();
    for _ in 0..3 {
        let (next, action) = s.fetch_step(st, FetchEvent::BodyFailed("early".to_string()));
        assert!(matches!(action, FetchAction::Send { .. }));
        st = next;
    }
    assert_eq!(st.attempt(), 4);
    match s.fetch_step(st, FetchEvent::BodyFailed("reset".to_string())).1 {
        FetchAction::Failed(AppError::HttpError(m)) => assert_eq!(m, "reset"),
        _ => panic!("expected a read failure"),
    }
}

#[test]
fn sanitizing_twice_changes_nothing() {
    for name in ["8:00 AI 早报", "__a b__", "<>", " x/y?z ", "hello-world.test"] {
        let once = sanitize_filename(name);
        assert_eq!(sanitize_filename(&once), once);
        assert!(!once.starts_with('_') && !once.ends_with('_'));
    }
}

#[test]
fn image_file_names_stay_in_their_folder() {
    let s = WeixinScraper::new();
    assert_eq!(s.image_filename("https://a/b/", 0), "image_0.jpg");
    assert_eq!(s.image_filename("?wx_fmt=png", 9), "image_9.png");
    assert_eq!(s.image_filename("", 1), "image_1.jpg");
    for url in ["https://a/b/", "x?y/z.png", "a.b/c?d=e.f", "https://h/p.q?r=/s"] {
        let name = s.image_filename(url, 4);
        assert!(!name.contains('/') && !name.contains('?') && name.contains('.'), "{}", name);
    }
}

#[test]
fn fetch_status_failure_names_code_and_reason() {
    let s = WeixinScraper::new();
    let (mut st, _) = s.begin_fetch();
    for _ in 0..3 {
        st = s.fetch_step(st, FetchEvent::Responded { status: 500, reason: None }).0;
    }
    match s.fetch_step(st, FetchEvent::Responded { status: 404, reason: Some("Not Found".to_string()) }).1 {
        FetchAction::Failed(AppError::HttpError(m)) => assert_eq!(m, "404 Not Found"),
        _ => panic!("expected an HTTP error"),
    }
}

#[test]
fn cached_article_survives_later_misses() {
    let mut s = WeixinScraper::new();
    s.remember_article("first", article("kept"));
    for i in 0..48 {
        s.remember_article(&format!("other{}", i), article("x"));
        assert_eq!(s.cached_article("first").unwrap().title, "kept");
    }
}

#[test]
fn fetched_article_is_answered_from_cache_next_time() {
    let mut s = WeixinScraper::new();
    let url = "https://mp.weixin.qq.com/s/a";
    let (state, action) = s.start_article(url);
    assert!(matches!(action, FetchAction::Send { delay_secs: 0 }));
    let state = state.expect("a miss starts a fetch");
    let (state, action) = s.article_step(url, state, FetchEvent::Responded { status: 200, reason: None });
    assert!(matches!(action, FetchAction::ReadBody));
    let html = "<html><head><meta property=\"og:title\" content=\"T\"></head><body></body></html>";
    match s.article_step(url, state, FetchEvent::BodyRead(html.to_string())).1 {
        FetchAction::Done(a) => assert_eq!(a.title, "T"),
        _ => panic!("expected an article"),
    }
    let (state, action) = s.start_article(url);
    assert!(state.is_none());
    match action {
        FetchAction::Done(a) => assert_eq!(a.title, "T"),
        _ => panic!("expected the cached article"),
    }
}

#[test]
fn failed_fetch_stores_nothing() {
    let mut s = WeixinScraper::new();
    let url = "https://mp.weixin.qq.com/s/b";
    let (state, _) = s.start_article(url);
    let mut state = state.unwrap();
    loop {
        let (next, action) = s.article_step(
            url,
            state,
            FetchEvent::SendFailed { timed_out: false, message: "down".to_string() },
        );
        state = next;
        match action {
            FetchAction::Send { .. } => continue,
            FetchAction::Failed(AppError::HttpError(m)) => {
                assert_eq!(m, "down");
                break;
            }
            _ => panic!("unexpected action"),
        }
    }
    assert!(s.cached_article(url).is_none());
    let (again, action) = s.start_article(url);
    assert!(again.is_some());
    assert!(matches!(action, FetchAction::Send { delay_secs: 0 }));
}
