//! The decisions of the article fetcher: the article cache, the retry policy
//! of the page request, image file names and the rewriting of image links.
//!
//! The network and file work itself is done by the caller, which hands the
//! outcomes back to `WeixinScraper`.

use vstd::prelude::*;
use crate::error::AppError;
use crate::parser::{ArticleData, ArticleView, WeixinParser, parsed_article};
use crate::text::{
    chars_equal, chars_to_string, contains_seq, copy_range, decimal, digit_char, matches_at, push_all,
    push_decimal, push_str, starts_with, str_chars, trim, trimmed,
};

verus! {

// ---------------------------------------------------------------------------
// Article cache
// ---------------------------------------------------------------------------

/// Most articles the cache holds; when it is full, it is emptied before the
/// next article is stored.
pub const CACHE_MAX_SIZE: usize = 50;

/// The cache after storing `article` under `url`: a full cache is emptied
/// first.
pub open spec fn stored(
    before: Map<Seq<char>, ArticleView>,
    url: Seq<char>,
    article: ArticleView,
) -> Map<Seq<char>, ArticleView> {
    (if before.len() >= CACHE_MAX_SIZE {
        Map::<Seq<char>, ArticleView>::empty()
    } else {
        before
    }).insert(url, article)
}

/// Looking an address up right after storing an article for it gives that
/// article; a store into a cache that is not full keeps every other entry,
/// and a store into a full one keeps only the new entry.
pub proof fn lemma_store_then_lookup(
    before: Map<Seq<char>, ArticleView>,
    url: Seq<char>,
    article: ArticleView,
    other: Seq<char>,
)
    ensures
        stored(before, url, article).contains_key(url),
        stored(before, url, article)[url] == article,
        before.len() < CACHE_MAX_SIZE && other != url && before.contains_key(other) ==> stored(
            before,
            url,
            article,
        ).contains_key(other) && stored(before, url, article)[other] == before[other],
        before.len() >= CACHE_MAX_SIZE && other != url ==> !stored(before, url, article).contains_key(
            other,
        ),
{
}

/// The cache after the stores of `later`, one after another, from `before`.
pub open spec fn stored_all(
    before: Map<Seq<char>, ArticleView>,
    later: Seq<(Seq<char>, ArticleView)>,
) -> Map<Seq<char>, ArticleView>
    decreases later.len(),
{
    if later.len() == 0 {
        before
    } else {
        let (url, article) = later.last();
        stored(stored_all(before, later.drop_last()), url, article)
    }
}

/// An article stays cached: after it is stored under `url`, any later
/// sequence of stores under other addresses, none of which finds the cache
/// full, leaves `url` holding that same article. So once `article_step` has
/// answered `url` with an article, a later `start_article(url)` answers with
/// that same article and sends no request.
pub proof fn lemma_stays_cached(
    before: Map<Seq<char>, ArticleView>,
    url: Seq<char>,
    article: ArticleView,
    later: Seq<(Seq<char>, ArticleView)>,
)
    requires
        forall|i: int| 0 <= i < later.len() ==> (#[trigger] later[i]).0 != url,
        forall|i: int|
            0 <= i < later.len() ==> (#[trigger] stored_all(
                stored(before, url, article),
                later.take(i),
            )).len() < CACHE_MAX_SIZE,
    ensures
        stored_all(stored(before, url, article), later).contains_key(url),
        stored_all(stored(before, url, article), later)[url] == article,
    decreases later.len(),
{
    let first = stored(before, url, article);
    if later.len() > 0 {
        let head = later.drop_last();
        assert forall|i: int| 0 <= i < head.len() implies (#[trigger] head[i]).0 != url by {
            assert(head[i] == later[i]);
        }
        assert forall|i: int| 0 <= i < head.len() implies (#[trigger] stored_all(first, head.take(i))).len()
            < CACHE_MAX_SIZE by {
            assert(head.take(i) =~= later.take(i));
            assert(stored_all(first, later.take(i)).len() < CACHE_MAX_SIZE);
        }
        lemma_stays_cached(before, url, article, head);
        assert(later.take(head.len() as int) =~= head);
        assert(stored_all(first, later.take(head.len() as int)).len() < CACHE_MAX_SIZE);
        assert(later[later.len() - 1].0 != url);
        let (u, a) = later.last();
        lemma_store_then_lookup(stored_all(first, head), u, a, url);
    }
}

/// The keys of the cache entries, in order.
pub open spec fn cache_keys(s: Seq<(Vec<char>, ArticleData)>) -> Seq<Seq<char>> {
    s.map_values(|e: (Vec<char>, ArticleData)| e.0@)
}

/// In-memory cache of parsed articles, keyed by page address.
pub struct ArticleCache {
    entries: Vec<(Vec<char>, ArticleData)>,
}

impl ArticleCache {
    #[verifier::type_invariant]
    spec fn well_formed(self) -> bool {
        &&& cache_keys(self.entries@).no_duplicates()
        &&& self.entries@.len() <= CACHE_MAX_SIZE
    }

    /// The cached articles by address.
    pub closed spec fn view_map(&self) -> Map<Seq<char>, ArticleView> {
        let keys = cache_keys(self.entries@);
        Map::new(
            |k: Seq<char>| keys.contains(k),
            |k: Seq<char>| self.entries@[choose|i: int| 0 <= i < keys.len() && keys[i] == k].1@,
        )
    }
}

impl View for ArticleCache {
    type V = Map<Seq<char>, ArticleView>;

    open spec fn view(&self) -> Map<Seq<char>, ArticleView> {
        self.view_map()
    }
}

/// The map view of entries with distinct keys: its domain is the key set,
/// its size the number of entries, and each entry is found under its key.
proof fn lemma_entries_map(s: Seq<(Vec<char>, ArticleData)>, m: Map<Seq<char>, ArticleView>)
    requires
        cache_keys(s).no_duplicates(),
        m == Map::new(
            |k: Seq<char>| cache_keys(s).contains(k),
            |k: Seq<char>| s[choose|i: int| 0 <= i < cache_keys(s).len() && cache_keys(s)[i] == k].1@,
        ),
    ensures
        m.dom() == cache_keys(s).to_set(),
        m.dom().finite(),
        m.len() == s.len(),
        forall|i: int| 0 <= i < s.len() ==> #[trigger] m[s[i].0@] == s[i].1@,
        forall|i: int| 0 <= i < s.len() ==> m.contains_key(#[trigger] s[i].0@),
{
    let keys = cache_keys(s);
    assert(m.dom() =~= keys.to_set());
    keys.unique_seq_to_set();
    vstd::seq_lib::seq_to_set_is_finite(keys);
    assert forall|i: int| 0 <= i < s.len() implies #[trigger] m[s[i].0@] == s[i].1@ by {
        assert(keys[i] == s[i].0@);
        assert(keys.contains(s[i].0@));
        let j = choose|j: int| 0 <= j < keys.len() && keys[j] == s[i].0@;
        assert(keys[j] == keys[i]);
    }
    assert forall|i: int| 0 <= i < s.len() implies m.contains_key(#[trigger] s[i].0@) by {
        assert(keys[i] == s[i].0@);
    }
}

impl ArticleCache {
    /// An empty cache.
    pub fn new() -> (r: Self)
        ensures
            r@ == Map::<Seq<char>, ArticleView>::empty(),
    {
        let r = ArticleCache { entries: Vec::new() };
        proof {
            assert(r@ =~= Map::<Seq<char>, ArticleView>::empty());
        }
        r
    }

    /// Number of cached articles; never above `CACHE_MAX_SIZE`.
    pub fn len(&self) -> (r: usize)
        ensures
            r == self@.len(),
            r <= CACHE_MAX_SIZE,
    {
        proof {
            use_type_invariant(self);
            lemma_entries_map(self.entries@, self@);
        }
        self.entries.len()
    }

    /// The cached article for `url`, if there is one.
    pub fn get(&self, url: &str) -> (r: Option<ArticleData>)
        ensures
            match r {
                Some(a) => self@.contains_key(url@) && a@ == self@[url@],
                None => !self@.contains_key(url@),
            },
    {
        proof {
            use_type_invariant(self);
            lemma_entries_map(self.entries@, self@);
        }
        let mut i: usize = 0;
        while i < self.entries.len()
            invariant
                i <= self.entries@.len(),
                forall|j: int| 0 <= j < i ==> self.entries@[j].0@ != url@,
            decreases self.entries.len() - i,
        {
            if chars_equal(&self.entries[i].0, url) {
                proof {
                    use_type_invariant(self);
                    lemma_entries_map(self.entries@, self@);
                    assert(self@[self.entries@[i as int].0@] == self.entries@[i as int].1@);
                    assert(self@.contains_key(self.entries@[i as int].0@));
                }
                return Some(self.entries[i].1.duplicate());
            }
            i += 1;
        }
        proof {
            let keys = cache_keys(self.entries@);
            if keys.contains(url@) {
                let j = choose|j: int| 0 <= j < keys.len() && keys[j] == url@;
                assert(self.entries@[j].0@ == url@);
            }
        }
        None
    }

    /// Stores `article` under `url`, first emptying the cache when it is full.
    pub fn insert(&mut self, url: &str, article: ArticleData)
        ensures
            final(self)@ == stored(old(self)@, url@, article@),
            final(self)@.len() <= CACHE_MAX_SIZE,
    {
        proof {
            use_type_invariant(&*self);
            lemma_entries_map(self.entries@, self@);
        }
        let ghost base = if self@.len() >= CACHE_MAX_SIZE {
            Map::<Seq<char>, ArticleView>::empty()
        } else {
            self@
        };
        let mut entries: Vec<(Vec<char>, ArticleData)> = Vec::new();
        std::mem::swap(&mut entries, &mut self.entries);
        if entries.len() >= CACHE_MAX_SIZE {
            entries = Vec::new();
        }
        let ghost before = entries@;
        proof {
            let m0 = Map::new(
                |k: Seq<char>| cache_keys(before).contains(k),
                |k: Seq<char>| before[choose|i: int| 0 <= i < cache_keys(before).len() && cache_keys(before)[i] == k].1@,
            );
            assert(cache_keys(before).no_duplicates());
            lemma_entries_map(before, m0);
            assert(m0 =~= base);
        }
        let key = str_chars(url);
        let mut i: usize = 0;
        let mut found = false;
        while i < entries.len() && !found
            invariant
                entries@ == before,
                i <= entries@.len(),
                forall|j: int| 0 <= j < i ==> entries@[j].0@ != url@,
                found ==> i < entries@.len() && entries@[i as int].0@ == url@,
            decreases entries.len() - i + (if found { 0int } else { 1int }),
        {
            if chars_equal(&entries[i].0, url) {
                found = true;
            } else {
                i += 1;
            }
        }
        if found {
            entries[i] = (key, article);
        } else {
            entries.push((key, article));
        }
        proof {
            let after = entries@;
            let ka = cache_keys(after);
            let kb = cache_keys(before);
            assert forall|j: int| 0 <= j < kb.len() implies kb[j] == before[j].0@ by {}
            if found {
                assert(ka =~= kb.update(i as int, url@));
                assert(kb[i as int] == url@);
                assert(ka.no_duplicates()) by {
                    assert forall|p: int, q: int| 0 <= p < ka.len() && 0 <= q < ka.len() && p != q implies ka[p] != ka[q] by {
                        if p != i && q != i {
                            assert(ka[p] == kb[p] && ka[q] == kb[q]);
                        } else if p == i {
                            assert(ka[q] == kb[q]);
                            assert(kb[q] != kb[p]);
                        } else {
                            assert(ka[p] == kb[p]);
                            assert(kb[q] != kb[p]);
                        }
                    }
                }
            } else {
                assert(ka =~= kb.push(url@));
                assert forall|j: int| 0 <= j < kb.len() implies kb[j] != url@ by {
                    assert(before[j].0@ != url@);
                }
                assert(!kb.contains(url@));
                assert(ka.no_duplicates()) by {
                    assert forall|p: int, q: int| 0 <= p < ka.len() && 0 <= q < ka.len() && p != q implies ka[p] != ka[q] by {
                        if p < kb.len() && q < kb.len() {
                            assert(ka[p] == kb[p] && ka[q] == kb[q]);
                        } else if p < kb.len() {
                            assert(ka[p] == kb[p]);
                        } else if q < kb.len() {
                            assert(ka[q] == kb[q]);
                        }
                    }
                }
            }
            let m1 = Map::new(
                |k: Seq<char>| ka.contains(k),
                |k: Seq<char>| after[choose|j: int| 0 <= j < ka.len() && ka[j] == k].1@,
            );
            lemma_entries_map(after, m1);
            let m0 = Map::new(
                |k: Seq<char>| kb.contains(k),
                |k: Seq<char>| before[choose|j: int| 0 <= j < kb.len() && kb[j] == k].1@,
            );
            lemma_entries_map(before, m0);
            assert forall|k: Seq<char>| #[trigger] m1.contains_key(k) <==> base.insert(url@, article@).contains_key(k) by {
                if m1.contains_key(k) {
                    let j = choose|j: int| 0 <= j < ka.len() && ka[j] == k;
                    if k != url@ {
                        assert(kb[j] == k);
                        assert(m0.contains_key(before[j].0@));
                    }
                }
                if base.contains_key(k) && k != url@ {
                    let j = choose|j: int| 0 <= j < kb.len() && kb[j] == k;
                    assert(ka[j] == k);
                    assert(m1.contains_key(after[j].0@));
                }
                if k == url@ {
                    let j = if found { i as int } else { before.len() as int };
                    assert(after[j].0@ == url@);
                    assert(m1.contains_key(after[j].0@));
                }
            }
            assert forall|k: Seq<char>| #[trigger] m1.contains_key(k) implies m1[k] == base.insert(url@, article@)[k] by {
                let j = choose|j: int| 0 <= j < ka.len() && ka[j] == k;
                assert(m1[after[j].0@] == after[j].1@);
                if k == url@ {
                    let jj = if found { i as int } else { before.len() as int };
                    assert(ka[jj] == url@);
                    assert(j == jj);
                } else {
                    assert(kb[j] == k);
                    assert(before[j] == after[j]);
                    assert(m0[before[j].0@] == before[j].1@);
                }
            }
            assert(m1 =~= base.insert(url@, article@));
            assert(after.len() <= CACHE_MAX_SIZE);
        }
        self.entries = entries;
    }
}

// ---------------------------------------------------------------------------
// The scraper
// ---------------------------------------------------------------------------

/// The fetcher's own state: the page parser and the article cache.
pub struct WeixinScraper {
    pub parser: WeixinParser,
    cache: ArticleCache,
}

impl WeixinScraper {
    /// The cached articles by address.
    pub closed spec fn cache_view(&self) -> Map<Seq<char>, ArticleView> {
        self.cache@
    }

    /// A fetcher with an empty cache.
    pub fn new() -> (r: Self)
        ensures
            r.cache_view() == Map::<Seq<char>, ArticleView>::empty(),
    {
        WeixinScraper { parser: WeixinParser::new(), cache: ArticleCache::new() }
    }

    /// The cached article for `url`, if any.
    pub fn cached_article(&self, url: &str) -> (r: Option<ArticleData>)
        ensures
            match r {
                Some(a) => self.cache_view().contains_key(url@) && a@ == self.cache_view()[url@],
                None => !self.cache_view().contains_key(url@),
            },
    {
        self.cache.get(url)
    }

    /// Caches `article` under `url`; a full cache is emptied first.
    pub fn remember_article(&mut self, url: &str, article: ArticleData)
        ensures
            final(self).cache_view() == stored(old(self).cache_view(), url@, article@),
            final(self).cache_view().len() <= CACHE_MAX_SIZE,
    {
        self.cache.insert(url, article);
    }
}

// ---------------------------------------------------------------------------
// Fetch policy
// ---------------------------------------------------------------------------

/// Retries after the first request of an article page.
pub const MAX_RETRIES: u32 = 3;

/// `3` to the power `n`.
pub open spec fn pow3(n: nat) -> nat
    decreases n,
{
    if n == 0 {
        1
    } else {
        3 * pow3((n - 1) as nat)
    }
}

/// The wait before request number `attempt` (from 1): none before the
/// first, then 1 s, 3 s, 9 s.
pub open spec fn retry_delay(attempt: nat) -> nat {
    if attempt <= 1 {
        0
    } else {
        pow3((attempt - 2) as nat)
    }
}

/// Where fetching one article page stands: the number of the request under
/// way, from 1 to `MAX_RETRIES + 1`.
pub struct FetchState {
    attempt: u32,
}

impl FetchState {
    #[verifier::type_invariant]
    spec fn within_limit(self) -> bool {
        1 <= self.attempt <= MAX_RETRIES + 1
    }

    /// The number of the request under way.
    pub closed spec fn request_number(self) -> nat {
        self.attempt as nat
    }

    /// The number of the request under way.
    pub fn attempt(&self) -> (r: u32)
        ensures
            r == self.request_number(),
            1 <= r <= MAX_RETRIES + 1,
    {
        proof {
            use_type_invariant(self);
        }
        self.attempt
    }
}

/// What happened to the request under way.
pub enum FetchEvent {
    /// The server answered with this status and canonical reason phrase.
    Responded { status: u16, reason: Option<String> },
    /// The response body was read.
    BodyRead(String),
    /// The response body could not be read.
    BodyFailed(String),
    /// The request failed before an answer; `timed_out` when it ran out of time.
    SendFailed { timed_out: bool, message: String },
}

/// What the caller is to do next.
pub enum FetchAction {
    /// Wait this many seconds, then send the request (again).
    Send { delay_secs: u64 },
    /// Read the response body.
    ReadBody,
    /// The article is parsed.
    Done(ArticleData),
    /// No request is left; this is the last error.
    Failed(AppError),
}

/// Whether an event is a failure of the request under way.
pub open spec fn event_error_kind(e: FetchEvent) -> bool {
    match e {
        FetchEvent::Responded { status, .. } => !(200 <= status <= 299),
        FetchEvent::BodyRead(_) => false,
        FetchEvent::BodyFailed(_) => true,
        FetchEvent::SendFailed { .. } => true,
    }
}

/// The message of a failed event: the status code and reason phrase of an
/// unsuccessful answer (`unknown` without a phrase), the message of a body
/// that could not be read, or of a request that failed (with a timeout
/// notice in front when it ran out of time).
pub open spec fn failure_message(e: FetchEvent) -> Seq<char> {
    match e {
        FetchEvent::Responded { status, reason } => decimal(status as nat) + " "@ + match reason {
            Some(r) => r@,
            None => "unknown"@,
        },
        FetchEvent::BodyFailed(m) => m@,
        FetchEvent::SendFailed { timed_out, message } => if timed_out {
            "请求超时: "@ + message@
        } else {
            message@
        },
        FetchEvent::BodyRead(_) => seq![],
    }
}

/// The error reported for a failed event: an HTTP error with its message.
pub open spec fn error_matches(err: AppError, e: FetchEvent) -> bool {
    err matches AppError::HttpError(m) && m@ == failure_message(e)
}

/// `3^n` for small `n`.
fn power_of_three(n: u32) -> (r: u64)
    requires
        n <= MAX_RETRIES,
    ensures
        r == pow3(n as nat),
{
    proof {
        assert(pow3(0) == 1);
        assert(pow3(1) == 3);
        assert(pow3(2) == 9);
        assert(pow3(3) == 27);
    }
    if n == 0 {
        1
    } else if n == 1 {
        3
    } else if n == 2 {
        9
    } else {
        27
    }
}

/// What one step of fetching a page gives after `event` in `state`: a
/// successful answer has its body read, a body that was read is parsed, and
/// a failure is retried after `retry_delay` until `MAX_RETRIES` retries have
/// failed, when it ends in an HTTP error carrying `failure_message`.
pub open spec fn fetch_outcome(state: FetchState, event: FetchEvent, r: (FetchState, FetchAction)) -> bool {
    &&& 1 <= r.0.request_number() <= MAX_RETRIES + 1
    &&& match event {
        FetchEvent::Responded { status, .. } => 200 <= status <= 299 ==> r.0 == state && r.1 is ReadBody,
        FetchEvent::BodyRead(html) => r.0 == state && (r.1 matches FetchAction::Done(a) && a@
            == parsed_article(html@)),
        _ => true,
    }
    &&& event_error_kind(event) ==> (if state.request_number() <= MAX_RETRIES {
        r.0.request_number() == state.request_number() + 1 && (r.1 matches FetchAction::Send {
            delay_secs,
        } && delay_secs == retry_delay(r.0.request_number()))
    } else {
        r.0 == state && (r.1 matches FetchAction::Failed(err) && error_matches(err, event))
    })
}

impl WeixinScraper {
    /// Starts fetching a page: the first request goes out at once.
    pub fn begin_fetch(&self) -> (r: (FetchState, FetchAction))
        ensures
            r.0.request_number() == 1,
            r.1 matches FetchAction::Send { delay_secs } && delay_secs == 0,
    {
        (FetchState { attempt: 1 }, FetchAction::Send { delay_secs: 0 })
    }

    /// The next step after `event`: read the body of a successful answer,
    /// parse a body that was read, and on any failure send again after
    /// `retry_delay`, until `MAX_RETRIES` retries have failed; then fail with an
    /// HTTP error that carries `failure_message`.
    pub fn fetch_step(&self, state: FetchState, event: FetchEvent) -> (r: (FetchState, FetchAction))
        ensures
            fetch_outcome(state, event, r),
    {
        proof {
            use_type_invariant(&state);
        }
        let ghost ev = event;
        let message = match event {
            FetchEvent::Responded { status, reason } => {
                if 200 <= status && status <= 299 {
                    return (state, FetchAction::ReadBody);
                }
                let mut m: Vec<char> = Vec::new();
                push_decimal(&mut m, status as usize);
                push_str(&mut m, " ");
                match reason {
                    Some(r) => push_str(&mut m, r.as_str()),
                    None => push_str(&mut m, "unknown"),
                }
                m
            },
            FetchEvent::BodyRead(html) => {
                let article = self.parser.parse(html.as_str());
                return (state, FetchAction::Done(article));
            },
            FetchEvent::BodyFailed(m) => str_chars(m.as_str()),
            FetchEvent::SendFailed { timed_out, message } => {
                if timed_out {
                    let mut m = str_chars("请求超时: ");
                    push_str(&mut m, message.as_str());
                    m
                } else {
                    str_chars(message.as_str())
                }
            },
        };
        proof {
            assert(message@ == failure_message(ev));
        }
        let err = AppError::HttpError(chars_to_string(&message));
        if state.attempt <= MAX_RETRIES {
            let delay = power_of_three(state.attempt - 1);
            (FetchState { attempt: state.attempt + 1 }, FetchAction::Send { delay_secs: delay })
        } else {
            (state, FetchAction::Failed(err))
        }
    }
}

impl WeixinScraper {
    /// Starts getting the article at `url`: a cached article is the answer at
    /// once, and no request is sent (`None` as the fetch state); otherwise
    /// the first request of a fetch goes out at once.
    pub fn start_article(&self, url: &str) -> (r: (Option<FetchState>, FetchAction))
        ensures
            self.cache_view().contains_key(url@) ==> r.0 is None && (r.1 matches FetchAction::Done(
                a,
            ) && a@ == self.cache_view()[url@]),
            !self.cache_view().contains_key(url@) ==> (r.0 matches Some(s) && s.request_number() == 1)
                && (r.1 matches FetchAction::Send { delay_secs } && delay_secs == 0),
    {
        match self.cached_article(url) {
            Some(a) => (None, FetchAction::Done(a)),
            None => {
                let (s, act) = self.begin_fetch();
                (Some(s), act)
            },
        }
    }

    /// One step of getting the article at `url` after `event`, as
    /// `fetch_step` decides it; a parsed article is also stored in the cache
    /// under `url`, and any other step leaves the cache as it was (a failed
    /// fetch stores nothing).
    pub fn article_step(&mut self, url: &str, state: FetchState, event: FetchEvent) -> (r: (
        FetchState,
        FetchAction,
    ))
        ensures
            fetch_outcome(state, event, r),
            match r.1 {
                FetchAction::Done(a) => final(self).cache_view() == stored(
                    old(self).cache_view(),
                    url@,
                    a@,
                ),
                _ => final(self).cache_view() == old(self).cache_view(),
            },
    {
        let (s, act) = self.fetch_step(state, event);
        match act {
            FetchAction::Done(a) => {
                self.remember_article(url, a.duplicate());
                (s, FetchAction::Done(a))
            },
            other => (s, other),
        }
    }
}

// ---------------------------------------------------------------------------
// Image file names
// ---------------------------------------------------------------------------

/// Index of the first `c` in `s`, or `s.len()`.
pub open spec fn first_index(s: Seq<char>, c: char) -> nat
    decreases s.len(),
{
    if s.len() == 0 || s[0] == c {
        0
    } else {
        1 + first_index(s.drop_first(), c)
    }
}

/// Index of the last `c` in `s`, or -1.
pub open spec fn last_index(s: Seq<char>, c: char) -> int
    decreases s.len(),
{
    if s.len() == 0 {
        -1
    } else if s.last() == c {
        s.len() - 1
    } else {
        last_index(s.drop_last(), c)
    }
}

/// The part of `s` before its first `c` (`split(c).next()`).
pub open spec fn before_first(s: Seq<char>, c: char) -> Seq<char> {
    s.take(first_index(s, c) as int)
}

/// The part of `s` after its last `c` (`rsplit(c).next()`).
pub open spec fn after_last(s: Seq<char>, c: char) -> Seq<char> {
    s.skip(last_index(s, c) + 1)
}

/// The second `?`-separated piece of a URL (`split('?').nth(1)`).
pub open spec fn query_part(url: Seq<char>) -> Option<Seq<char>> {
    let k = first_index(url, '?');
    if k < url.len() {
        Some(before_first(url.skip((k + 1) as int), '?'))
    } else {
        None
    }
}

/// The value of the first `&`-separated parameter that begins with
/// `wx_fmt=`, if any.
pub open spec fn wx_fmt_value(query: Seq<char>) -> Option<Seq<char>>
    decreases query.len(),
{
    let k = first_index(query, '&');
    let piece = query.take(k as int);
    if starts_with(piece, "wx_fmt="@) {
        Some(piece.skip(7))
    } else if k < query.len() {
        wx_fmt_value(query.skip((k + 1) as int))
    } else {
        None
    }
}

/// The image extensions that are recognised.
pub open spec fn known_ext(e: Seq<char>) -> bool {
    e == "jpg"@ || e == "jpeg"@ || e == "png"@ || e == "gif"@ || e == "webp"@ || e == "bmp"@
        || e == "svg"@ || e == "ico"@
}

/// The last path segment of an image URL, or `image` when it is empty.
pub open spec fn image_basename(url: Seq<char>) -> Seq<char> {
    let b = after_last(before_first(url, '?'), '/');
    if b.len() == 0 {
        "image"@
    } else {
        b
    }
}

/// The extension for an image URL: its `wx_fmt` parameter if recognised,
/// else the extension of its basename if recognised, else `jpg`.
pub open spec fn image_ext(url: Seq<char>) -> Seq<char> {
    let from_param = match query_part(url) {
        Some(q) => wx_fmt_value(q),
        None => None,
    };
    match from_param {
        Some(e) if known_ext(e) => e,
        _ => {
            let e = after_last(image_basename(url), '.');
            if known_ext(e) {
                e
            } else {
                "jpg"@
            }
        },
    }
}

/// The local file name of the image at `url`, the `idx`-th one named: its
/// basename when that has an extension, else `image_{idx}.{ext}`.
pub open spec fn image_file_name(url: Seq<char>, idx: nat) -> Seq<char> {
    let base = image_basename(url);
    let ext = image_ext(url);
    if contains_seq(base, "."@) && ext.len() <= 5 {
        base
    } else {
        "image_"@ + decimal(idx) + "."@ + ext
    }
}

/// The characters before the first `c` are not `c`.
proof fn lemma_first_index(s: Seq<char>, c: char)
    ensures
        first_index(s, c) <= s.len(),
        forall|j: int| 0 <= j < first_index(s, c) ==> s[j] != c,
    decreases s.len(),
{
    if s.len() > 0 && s[0] != c {
        lemma_first_index(s.drop_first(), c);
        assert forall|j: int| 0 <= j < first_index(s, c) implies s[j] != c by {
            if j > 0 {
                assert(s[j] == s.drop_first()[j - 1]);
            }
        }
    }
}

/// The characters after the last `c` are not `c`.
proof fn lemma_last_index(s: Seq<char>, c: char)
    ensures
        -1 <= last_index(s, c) < s.len(),
        forall|j: int| last_index(s, c) < j < s.len() ==> s[j] != c,
    decreases s.len(),
{
    if s.len() > 0 && s.last() != c {
        lemma_last_index(s.drop_last(), c);
        assert forall|j: int| last_index(s, c) < j < s.len() implies s[j] != c by {
            if j < s.len() - 1 {
                assert(s[j] == s.drop_last()[j]);
            }
        }
    }
}

/// Digit characters are between `0` and `9`.
proof fn lemma_digit_char(d: nat)
    requires
        d < 10,
    ensures
        '0' <= digit_char(d) <= '9',
{
    let ds = seq!['0', '1', '2', '3', '4', '5', '6', '7', '8', '9'];
    assert(digit_char(d) == ds[d as int]);
    if d == 0 { assert(ds[0] == '0'); }
    else if d == 1 { assert(ds[1] == '1'); }
    else if d == 2 { assert(ds[2] == '2'); }
    else if d == 3 { assert(ds[3] == '3'); }
    else if d == 4 { assert(ds[4] == '4'); }
    else if d == 5 { assert(ds[5] == '5'); }
    else if d == 6 { assert(ds[6] == '6'); }
    else if d == 7 { assert(ds[7] == '7'); }
    else if d == 8 { assert(ds[8] == '8'); }
    else { assert(ds[9] == '9'); }
}

/// Decimal notation uses digits only.
proof fn lemma_decimal_digits(n: nat)
    ensures
        forall|i: int| 0 <= i < decimal(n).len() ==> '0' <= #[trigger] decimal(n)[i] <= '9',
    decreases n,
{
    lemma_digit_char(n % 10);
    if n >= 10 {
        lemma_decimal_digits(n / 10);
        assert forall|i: int| 0 <= i < decimal(n).len() implies '0' <= #[trigger] decimal(n)[i] <= '9' by {
            if i < decimal(n / 10).len() {
                assert(decimal(n)[i] == decimal(n / 10)[i]);
            }
        }
    } else {
        lemma_digit_char(n);
    }
}

/// A character that would make a file name reach into another directory or
/// carry a query.
pub open spec fn path_char(c: char) -> bool {
    c == '/' || c == '?'
}

/// The image extensions hold no `/` or `?`.
proof fn lemma_known_ext_plain(e: Seq<char>)
    requires
        known_ext(e),
    ensures
        forall|i: int| 0 <= i < e.len() ==> !path_char(#[trigger] e[i]),
{
    reveal_strlit("jpg");
    reveal_strlit("jpeg");
    reveal_strlit("png");
    reveal_strlit("gif");
    reveal_strlit("webp");
    reveal_strlit("bmp");
    reveal_strlit("svg");
    reveal_strlit("ico");
}

/// One of the documented image extensions: jpg, jpeg, png, gif, webp, bmp,
/// svg, ico.
pub open spec fn documented_ext(e: Seq<char>) -> bool {
    e == "jpg"@ || e == "jpeg"@ || e == "png"@ || e == "gif"@ || e == "webp"@ || e == "bmp"@
        || e == "svg"@ || e == "ico"@
}

/// The documented extensions are made of letters only.
proof fn lemma_documented_ext_letters(e: Seq<char>)
    requires
        documented_ext(e),
    ensures
        forall|j: int| 0 <= j < e.len() ==> 'a' <= #[trigger] e[j] <= 'z',
{
    reveal_strlit("jpg");
    reveal_strlit("jpeg");
    reveal_strlit("png");
    reveal_strlit("gif");
    reveal_strlit("webp");
    reveal_strlit("bmp");
    reveal_strlit("svg");
    reveal_strlit("ico");
}

/// A first `c` after a stretch without `c` is found after that stretch.
proof fn lemma_first_index_concat(a: Seq<char>, b: Seq<char>, c: char)
    requires
        forall|j: int| 0 <= j < a.len() ==> a[j] != c,
    ensures
        first_index(a + b, c) == a.len() + first_index(b, c),
    decreases a.len(),
{
    if a.len() > 0 {
        assert((a + b)[0] == a[0]);
        assert((a + b).drop_first() =~= a.drop_first() + b);
        lemma_first_index_concat(a.drop_first(), b, c);
    } else {
        assert(a + b =~= b);
    }
}

/// The last `c` of `a`, `c`, `b` is the one between them when `b` has none.
proof fn lemma_last_index_before(a: Seq<char>, b: Seq<char>, c: char)
    requires
        forall|j: int| 0 <= j < b.len() ==> b[j] != c,
    ensures
        last_index(a.push(c) + b, c) == a.len(),
    decreases b.len(),
{
    let s = a.push(c) + b;
    if b.len() == 0 {
        assert(s =~= a.push(c));
    } else {
        assert(s.last() == b.last());
        assert(s.drop_last() =~= a.push(c) + b.drop_last());
        lemma_last_index_before(a, b.drop_last(), c);
    }
}

/// A WeChat image address whose last path segment has no extension and
/// whose `wx_fmt` parameter names one of the documented formats (jpg, jpeg,
/// png, gif, webp, bmp, svg, ico) is saved as `image_{idx}.{format}`.
pub proof fn lemma_wx_fmt_file_name(dir: Seq<char>, name: Seq<char>, e: Seq<char>, idx: nat)
    requires
        forall|j: int| 0 <= j < dir.len() ==> dir[j] != '?',
        forall|j: int| 0 <= j < name.len() ==> name[j] != '?' && name[j] != '/' && name[j] != '.',
        e == "jpg"@ || e == "jpeg"@ || e == "png"@ || e == "gif"@ || e == "webp"@ || e == "bmp"@
            || e == "svg"@ || e == "ico"@,
    ensures
        image_file_name(dir + "/"@ + name + "?wx_fmt="@ + e, idx) == "image_"@ + decimal(idx) + "."@
            + e,
{
    reveal_strlit("/");
    reveal_strlit("?wx_fmt=");
    reveal_strlit("wx_fmt=");
    reveal_strlit("image");
    reveal_strlit(".");
    reveal_strlit("jpg");
    reveal_strlit("jpeg");
    reveal_strlit("png");
    reveal_strlit("gif");
    reveal_strlit("webp");
    reveal_strlit("bmp");
    reveal_strlit("svg");
    reveal_strlit("ico");
    lemma_documented_ext_letters(e);
    let p = dir + "/"@ + name;
    let rest = "?wx_fmt="@ + e;
    let url = p + rest;
    assert(dir + "/"@ + name + "?wx_fmt="@ + e =~= url);
    assert forall|j: int| 0 <= j < p.len() implies p[j] != '?' by {
        if j < dir.len() {
            assert(p[j] == dir[j]);
        } else if j > dir.len() {
            assert(p[j] == name[j - dir.len() - 1]);
        }
    }
    lemma_first_index_concat(p, rest, '?');
    assert(first_index(url, '?') == p.len());
    // The query is `wx_fmt=` and the format, with no `?` or `&` in it.
    let q = "wx_fmt="@ + e;
    assert(url.skip(p.len() + 1int) =~= q);
    assert forall|j: int| 0 <= j < q.len() implies q[j] != '?' && q[j] != '&' by {
        if j >= 7 {
            assert(q[j] == e[j - 7]);
        }
    }
    lemma_first_index_concat(q, seq![], '?');
    lemma_first_index_concat(q, seq![], '&');
    assert(q + seq![] =~= q);
    assert(q.take(q.len() as int) =~= q);
    assert(query_part(url) == Some(q));
    assert(q.take(7) =~= "wx_fmt="@);
    assert(q.skip(7) =~= e);
    assert(wx_fmt_value(q) == Some(e));
    assert(known_ext(e));
    assert(image_ext(url) == e);
    // The last path segment is `name`.
    assert(url.take(p.len() as int) =~= p);
    assert(before_first(url, '?') == p);
    assert(p =~= dir.push('/') + name);
    lemma_last_index_before(dir, name, '/');
    assert(p.skip(dir.len() + 1int) =~= name);
    let base = image_basename(url);
    assert(base == name || base == "image"@);
    assert forall|j: int| 0 <= j < base.len() implies base[j] != '.' by {
        if base == name {
        } else {
            assert(base =~= seq!['i', 'm', 'a', 'g', 'e']);
        }
    }
    if contains_seq(base, "."@) {
        let j = choose|j: int| crate::text::occurs_at(base, "."@, j);
        assert(base.subrange(j, j + 1)[0] == base[j]);
    }
}

/// A local image file name stays in its directory: it holds no `/` or `?`,
/// and it has a `.` before an extension.
pub proof fn lemma_image_file_name_plain(url: Seq<char>, idx: nat)
    ensures
        forall|i: int| 0 <= i < image_file_name(url, idx).len() ==> !path_char(
            #[trigger] image_file_name(url, idx)[i],
        ),
        image_file_name(url, idx).contains('.'),
{
    reveal_strlit("image");
    reveal_strlit("image_");
    reveal_strlit(".");
    reveal_strlit("jpg");
    let path = before_first(url, '?');
    lemma_first_index(url, '?');
    lemma_last_index(path, '/');
    let b = after_last(path, '/');
    let base = image_basename(url);
    assert forall|i: int| 0 <= i < base.len() implies !path_char(#[trigger] base[i]) by {
        if b.len() > 0 {
            let k = last_index(path, '/') + 1;
            assert(base[i] == path[k + i]);
            assert(path[k + i] == url[k + i]);
        }
    }
    let ext = image_ext(url);
    assert forall|i: int| 0 <= i < ext.len() implies !path_char(#[trigger] ext[i]) by {
        let from_param = match query_part(url) {
            Some(q) => wx_fmt_value(q),
            None => None,
        };
        match from_param {
            Some(e) => {
                if known_ext(e) {
                    lemma_known_ext_plain(e);
                } else {
                    let e2 = after_last(base, '.');
                    if known_ext(e2) {
                        lemma_known_ext_plain(e2);
                    }
                }
            },
            None => {
                let e2 = after_last(base, '.');
                if known_ext(e2) {
                    lemma_known_ext_plain(e2);
                }
            },
        }
    }
    let name = image_file_name(url, idx);
    if contains_seq(base, "."@) && ext.len() <= 5 {
        let j = choose|j: int| crate::text::occurs_at(base, "."@, j);
        assert(base.subrange(j, j + 1)[0] == base[j]);
        assert(base[j] == '.');
    } else {
        let d = decimal(idx);
        lemma_decimal_digits(idx);
        assert(name == "image_"@ + d + "."@ + ext);
        assert(name[6 + d.len() as int] == '.');
        assert forall|i: int| 0 <= i < name.len() implies !path_char(#[trigger] name[i]) by {
            if i < 6 {
            } else if i < 6 + d.len() {
                assert(name[i] == d[i - 6]);
            } else if i == 6 + d.len() {
            } else {
                assert(name[i] == ext[i - 7 - d.len()]);
            }
        }
    }
}

/// Index of the first `c` in `s` at or after `from`, or `s.len()`.
fn find_char(s: &[char], from: usize, c: char) -> (r: usize)
    requires
        from <= s@.len(),
    ensures
        r == from + first_index(s@.skip(from as int), c),
        r <= s@.len(),
{
    let mut k = from;
    while k < s.len() && s[k] != c
        invariant
            from <= k <= s@.len(),
            first_index(s@.skip(from as int), c) == (k - from) + first_index(s@.skip(k as int), c),
        decreases s.len() - k,
    {
        proof {
            assert(s@.skip(k as int).drop_first() =~= s@.skip(k + 1));
        }
        k += 1;
    }
    k
}

/// `s` after its last `c` (all of `s` when there is none).
fn after_last_exec(s: &[char], c: char) -> (r: Vec<char>)
    ensures
        r@ == after_last(s@, c),
{
    let mut j = s.len();
    proof {
        assert(s@.take(s@.len() as int) =~= s@);
    }
    while j > 0 && s[j - 1] != c
        invariant
            j <= s@.len(),
            last_index(s@, c) == last_index(s@.take(j as int), c),
        decreases j,
    {
        proof {
            assert(s@.take(j as int).drop_last() =~= s@.take(j - 1));
        }
        j -= 1;
    }
    proof {
        if j > 0 {
            assert(s@.take(j as int).last() == c);
        } else {
            assert(s@.take(0).len() == 0);
        }
        assert(s@.take(s@.len() as int) =~= s@);
    }
    let r = copy_range(s, j, s.len());
    proof {
        assert(r@ =~= s@.skip(j as int));
    }
    r
}

/// Whether `e` is a recognised image extension.
fn is_known_ext(e: &[char]) -> (r: bool)
    ensures
        r == known_ext(e@),
{
    chars_equal(e, "jpg") || chars_equal(e, "jpeg") || chars_equal(e, "png") || chars_equal(e, "gif")
        || chars_equal(e, "webp") || chars_equal(e, "bmp") || chars_equal(e, "svg") || chars_equal(
        e,
        "ico",
    )
}

/// The value of the first `wx_fmt=` parameter of a query.
fn wx_fmt_exec(q: &[char]) -> (r: Option<Vec<char>>)
    ensures
        match r {
            Some(v) => wx_fmt_value(q@) == Some(v@),
            None => wx_fmt_value(q@) is None,
        },
{
    let prefix = str_chars("wx_fmt=");
    proof {
        reveal_strlit("wx_fmt=");
        assert(q@.skip(0) =~= q@);
    }
    let mut pos: usize = 0;
    loop
        invariant
            pos <= q@.len(),
            prefix@ == "wx_fmt="@,
            prefix@.len() == 7,
            wx_fmt_value(q@) == wx_fmt_value(q@.skip(pos as int)),
        decreases q@.len() - pos,
    {
        let ghost rest = q@.skip(pos as int);
        let k = find_char(q, pos, '&');
        let piece = copy_range(q, pos, k);
        proof {
            assert(piece@ =~= rest.take(first_index(rest, '&') as int));
        }
        if crate::text::has_prefix(&piece, &prefix) {
            let v = copy_range(&piece, 7, piece.len());
            proof {
                assert(v@ =~= piece@.skip(7));
            }
            return Some(v);
        }
        if k < q.len() {
            proof {
                assert(rest.skip((first_index(rest, '&') + 1) as int) =~= q@.skip(k + 1));
            }
            pos = k + 1;
        } else {
            return None;
        }
    }
}

impl WeixinScraper {
    /// A sensible local file name for the image at `url`, the `idx`-th image
    /// named: the URL's basename when it carries an extension, otherwise
    /// `image_{idx}.{ext}` with the extension from the `wx_fmt` parameter or
    /// the path (recognised formats only; `jpg` by default).
    pub fn image_filename(&self, url: &str, idx: usize) -> (r: String)
        ensures
            r@ == image_file_name(url@, idx as nat),
            forall|i: int| 0 <= i < r@.len() ==> !path_char(#[trigger] r@[i]),
            r@.contains('.'),
    {
        proof {
            lemma_image_file_name_plain(url@, idx as nat);
        }
        let u = str_chars(url);
        let qpos = find_char(&u, 0, '?');
        proof {
            assert(u@.skip(0) =~= u@);
        }
        let path = copy_range(&u, 0, qpos);
        let b0 = after_last_exec(&path, '/');
        let basename = if b0.len() == 0 { str_chars("image") } else { b0 };
        proof {
            assert(path@ =~= before_first(u@, '?'));
            assert(basename@ == image_basename(url@));
        }
        let from_param = if qpos < u.len() {
            let after = copy_range(&u, qpos + 1, u.len());
            let qend = find_char(&after, 0, '?');
            proof {
                assert(after@ =~= u@.skip(qpos + 1));
                assert(after@.skip(0) =~= after@);
            }
            let query = copy_range(&after, 0, qend);
            proof {
                assert(query@ =~= before_first(after@, '?'));
            }
            wx_fmt_exec(&query)
        } else {
            None
        };
        let ext = match from_param {
            Some(e) => if is_known_ext(&e) {
                e
            } else {
                let e2 = after_last_exec(&basename, '.');
                if is_known_ext(&e2) {
                    e2
                } else {
                    str_chars("jpg")
                }
            },
            None => {
                let e2 = after_last_exec(&basename, '.');
                if is_known_ext(&e2) {
                    e2
                } else {
                    str_chars("jpg")
                }
            },
        };
        proof {
            assert(ext@ == image_ext(url@));
        }
        let dot = str_chars(".");
        if crate::text::has_substring(&basename, &dot) && ext.len() <= 5 {
            chars_to_string(&basename)
        } else {
            let mut name = str_chars("image_");
            push_decimal(&mut name, idx);
            push_str(&mut name, ".");
            push_all(&mut name, &ext);
            chars_to_string(&name)
        }
    }
}

// ---------------------------------------------------------------------------
// Downloads and local links
// ---------------------------------------------------------------------------

/// One image to download: its trimmed address and its local file name.
pub struct ImageDownload {
    pub url: String,
    pub filename: String,
}

/// The downloads planned for `images`: empty addresses (after trimming) are
/// skipped, the others named in order with `image_file_name`, counting only
/// the addresses kept; `named` of them were named before.
pub open spec fn download_plan(images: Seq<Seq<char>>, named: nat) -> Seq<(Seq<char>, Seq<char>)>
    decreases images.len(),
{
    if images.len() == 0 {
        seq![]
    } else {
        let u = trim(images[0]);
        if u.len() == 0 {
            download_plan(images.drop_first(), named)
        } else {
            seq![(u, image_file_name(u, named))] + download_plan(images.drop_first(), named + 1)
        }
    }
}

/// Mathematical value of a list of planned downloads.
pub open spec fn downloads_view(v: Seq<ImageDownload>) -> Seq<(Seq<char>, Seq<char>)> {
    v.map_values(|d: ImageDownload| (d.url@, d.filename@))
}

/// Mathematical value of a list of (address, file name) pairs.
pub open spec fn pairs_view(v: Seq<(String, String)>) -> Seq<(Seq<char>, Seq<char>)> {
    v.map_values(|d: (String, String)| (d.0@, d.1@))
}

/// `s` with every occurrence of `from` replaced by `to`, matches taken from
/// the left without overlap (`str::replace`); an empty `from` matches before
/// every character and at the end.
pub open spec fn replace_all(s: Seq<char>, from: Seq<char>, to: Seq<char>) -> Seq<char>
    decreases s.len(),
{
    if from.len() == 0 {
        if s.len() == 0 {
            to
        } else {
            to + seq![s[0]] + replace_all(s.drop_first(), from, to)
        }
    } else if s.len() < from.len() {
        s
    } else if starts_with(s, from) {
        to + replace_all(s.skip(from.len() as int), from, to)
    } else {
        seq![s[0]] + replace_all(s.drop_first(), from, to)
    }
}

/// `markdown` with each downloaded address, in order, replaced by the local
/// path `images/{file}`.
pub open spec fn localized(markdown: Seq<char>, downloads: Seq<(Seq<char>, Seq<char>)>) -> Seq<char>
    decreases downloads.len(),
{
    if downloads.len() == 0 {
        markdown
    } else {
        replace_all(
            localized(markdown, downloads.drop_last()),
            downloads.last().0,
            "images/"@ + downloads.last().1,
        )
    }
}

/// The entry at `i` is followed by a later entry for the same address.
pub open spec fn superseded(d: Seq<(Seq<char>, Seq<char>)>, i: int) -> bool {
    exists|j: int| i < j < d.len() && d[j].0 == d[i].0
}

/// The entries not superseded by a later one for the same address, in
/// order: the address-to-file map that a sequence of stores builds.
pub open spec fn distinct_entries(d: Seq<(Seq<char>, Seq<char>)>) -> Seq<(Seq<char>, Seq<char>)> {
    distinct_from(d, 0)
}

/// `distinct_entries` of the entries from position `i` on.
pub open spec fn distinct_from(d: Seq<(Seq<char>, Seq<char>)>, i: nat) -> Seq<(Seq<char>, Seq<char>)>
    decreases d.len() - i,
{
    if i >= d.len() {
        seq![]
    } else if superseded(d, i as int) {
        distinct_from(d, i + 1)
    } else {
        seq![d[i as int]] + distinct_from(d, i + 1)
    }
}

/// Index of the entries that a later entry for the same address supersedes.
fn is_superseded(d: &Vec<(String, String)>, i: usize) -> (r: bool)
    requires
        i < d@.len(),
    ensures
        r == superseded(pairs_view(d@), i as int),
{
    let ghost dv = pairs_view(d@);
    let n = d.len();
    let mut j = i + 1;
    while j < d.len()
        invariant
            i < j <= d@.len(),
            dv == pairs_view(d@),
            forall|m: int| i < m < j ==> dv[m].0 != dv[i as int].0,
        decreases d.len() - j,
    {
        if d[j].0 == d[i].0 {
            proof {
                assert(dv[j as int].0 == dv[i as int].0);
            }
            return true;
        }
        j += 1;
    }
    false
}

/// `s` with every occurrence of `from` replaced by `to` (`str::replace`).
pub fn replace_chars(s: &[char], from: &[char], to: &[char]) -> (r: Vec<char>)
    ensures
        r@ == replace_all(s@, from@, to@),
{
    let mut out: Vec<char> = Vec::new();
    let mut pos: usize = 0;
    proof {
        assert(s@.skip(0) =~= s@);
    }
    if from.len() == 0 {
        while pos < s.len()
            invariant
                pos <= s@.len(),
                from@.len() == 0,
                replace_all(s@, from@, to@) == out@ + replace_all(s@.skip(pos as int), from@, to@),
            decreases s.len() - pos,
        {
            proof {
                assert(s@.skip(pos as int).drop_first() =~= s@.skip(pos + 1));
            }
            push_all(&mut out, to);
            out.push(s[pos]);
            pos += 1;
            proof {
                assert(out@ + replace_all(s@.skip(pos as int), from@, to@) =~= replace_all(
                    s@,
                    from@,
                    to@,
                ));
            }
        }
        proof {
            assert(s@.skip(pos as int).len() == 0);
        }
        push_all(&mut out, to);
        return out;
    }
    loop
        invariant
            pos <= s@.len(),
            from@.len() > 0,
            replace_all(s@, from@, to@) == out@ + replace_all(s@.skip(pos as int), from@, to@),
        decreases s@.len() - pos,
    {
        let ghost rest = s@.skip(pos as int);
        if s.len() - pos < from.len() {
            let tail = copy_range(s, pos, s.len());
            push_all(&mut out, &tail);
            proof {
                assert(tail@ =~= rest);
            }
            return out;
        }
        if matches_at(s, from, pos) {
            proof {
                assert(rest.take(from@.len() as int) =~= s@.subrange(pos as int, pos + from@.len()));
                assert(rest.skip(from@.len() as int) =~= s@.skip(pos + from@.len()));
            }
            push_all(&mut out, to);
            pos += from.len();
            proof {
                assert(out@ + replace_all(s@.skip(pos as int), from@, to@) =~= replace_all(
                    s@,
                    from@,
                    to@,
                ));
            }
        } else {
            proof {
                assert(rest.take(from@.len() as int) =~= s@.subrange(pos as int, pos + from@.len()));
                assert(rest.drop_first() =~= s@.skip(pos + 1));
            }
            out.push(s[pos]);
            pos += 1;
            proof {
                assert(out@ + replace_all(s@.skip(pos as int), from@, to@) =~= replace_all(
                    s@,
                    from@,
                    to@,
                ));
            }
        }
    }
}

impl WeixinScraper {
    /// The downloads for an article's image addresses (see `download_plan`).
    pub fn plan_image_downloads(&self, images: &Vec<String>) -> (r: Vec<ImageDownload>)
        ensures
            downloads_view(r@) == download_plan(crate::parser::strings_view(images@), 0),
    {
        let ghost iv = crate::parser::strings_view(images@);
        let mut r: Vec<ImageDownload> = Vec::new();
        let mut named: usize = 0;
        let mut i: usize = 0;
        proof {
            assert(iv.skip(0) =~= iv);
        }
        while i < images.len()
            invariant
                i <= images@.len(),
                named <= i,
                iv == crate::parser::strings_view(images@),
                download_plan(iv, 0) == downloads_view(r@) + download_plan(iv.skip(i as int), named as nat),
            decreases images.len() - i,
        {
            proof {
                assert(iv.skip(i as int)[0] == images@[i as int]@);
                assert(iv.skip(i as int).drop_first() =~= iv.skip(i + 1));
            }
            let url = trimmed(&str_chars(images[i].as_str()));
            if url.len() > 0 {
                let url_string = chars_to_string(&url);
                let filename = self.image_filename(url_string.as_str(), named);
                let ghost before = r@;
                r.push(ImageDownload { url: url_string, filename });
                proof {
                    assert(downloads_view(r@) =~= downloads_view(before).push(
                        (url@, image_file_name(url@, named as nat)),
                    ));
                    assert(downloads_view(r@) + download_plan(iv.skip(i + 1), (named + 1) as nat)
                        =~= downloads_view(before) + download_plan(iv.skip(i as int), named as nat));
                }
                named += 1;
            }
            i += 1;
        }
        proof {
            assert(iv.skip(i as int).len() == 0);
            assert(downloads_view(r@) + Seq::<(Seq<char>, Seq<char>)>::empty() =~= downloads_view(
                r@,
            ));
        }
        r
    }

    /// The address-to-file entries that storing `done` in order into a map
    /// leaves: an entry is dropped when a later one has the same address.
    pub fn distinct_downloads(&self, done: &Vec<(String, String)>) -> (r: Vec<(String, String)>)
        ensures
            pairs_view(r@) == distinct_entries(pairs_view(done@)),
    {
        let ghost dv = pairs_view(done@);
        let mut r: Vec<(String, String)> = Vec::new();
        let mut i: usize = 0;
        while i < done.len()
            invariant
                i <= done@.len(),
                dv == pairs_view(done@),
                distinct_from(dv, 0) == pairs_view(r@) + distinct_from(dv, i as nat),
            decreases done.len() - i,
        {
            if !is_superseded(done, i) {
                let ghost before = r@;
                r.push((done[i].0.clone(), done[i].1.clone()));
                proof {
                    assert(pairs_view(r@) =~= pairs_view(before).push(dv[i as int]));
                    assert(pairs_view(r@) + distinct_from(dv, (i + 1) as nat) =~= pairs_view(before)
                        + distinct_from(dv, i as nat));
                }
            }
            i += 1;
        }
        proof {
            assert(pairs_view(r@) + Seq::<(Seq<char>, Seq<char>)>::empty() =~= pairs_view(r@));
        }
        r
    }

    /// `markdown` with each downloaded address replaced by its local path
    /// `images/{file}`, entries taken in order.
    pub fn localize_image_links(&self, markdown: &str, downloads: &Vec<(String, String)>) -> (r: String)
        ensures
            r@ == localized(markdown@, pairs_view(downloads@)),
    {
        let ghost dv = pairs_view(downloads@);
        let mut md = str_chars(markdown);
        let mut i: usize = 0;
        while i < downloads.len()
            invariant
                i <= downloads@.len(),
                dv == pairs_view(downloads@),
                md@ == localized(markdown@, dv.take(i as int)),
            decreases downloads.len() - i,
        {
            let from = str_chars(downloads[i].0.as_str());
            let mut to = str_chars("images/");
            push_str(&mut to, downloads[i].1.as_str());
            md = replace_chars(&md, &from, &to);
            proof {
                assert(dv.take(i + 1).drop_last() =~= dv.take(i as int));
                assert(dv.take(i + 1).last() == dv[i as int]);
            }
            i += 1;
        }
        proof {
            assert(dv.take(downloads@.len() as int) =~= dv);
        }
        chars_to_string(&md)
    }
}

} // verus!
