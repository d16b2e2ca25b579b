//! The news feed read from the website API: request URL and what an accepted feed satisfies.
use crate::bindings::{url_with_query, url_with_query_pairs};
use crate::paths::bytes_of;
use crate::text::{chars_of, join2, join3, owned, str_eq, trim, trimmed};
use vstd::prelude::*;
use vstd::string::*;

verus! {

/// Largest accepted news response, in bytes.
pub const MAX_NEWS_SIZE: u64 = 524288;

/// Largest number of articles in one response.
pub const NEWS_COUNT: usize = 3;

/// The endpoint listing articles.
pub const NEWS_API_URL: &'static str = "https://api.rivalsbeyond.com/api/v1/news";

/// One article as the interface shows it.
#[derive(Clone, Debug)]
pub struct NewsItem {
    pub slug: String,
    pub locale: String,
    pub title: String,
    pub summary: String,
    pub published_at: String,
}

/// A page of articles.
#[derive(Clone, Debug)]
pub struct NewsFeed {
    pub items: Vec<NewsItem>,
}

/// The website language for a client language: `frFR` → `fr`, `enUS` → `en`.
pub open spec fn web_locale_spec(locale: Seq<char>) -> Option<Seq<char>> {
    if locale == "frFR"@ {
        Some("fr"@)
    } else if locale == "enUS"@ {
        Some("en"@)
    } else {
        None
    }
}

/// The website language for a client language.
pub fn web_locale(locale: &str) -> (r: Result<&'static str, String>)
    ensures
        match web_locale_spec(locale@) {
            Some(w) => r matches Ok(v) && v@ == w,
            None => r matches Err(e) && e@ == "Unsupported news language."@,
        },
{
    if str_eq(locale, "frFR") {
        Ok("fr")
    } else if str_eq(locale, "enUS") {
        Ok("en")
    } else {
        Err(owned("Unsupported news language."))
    }
}

/// The query of a news request: the website language, the first page, three articles.
pub open spec fn news_query(web: Seq<char>) -> Seq<(Seq<char>, Seq<char>)> {
    seq![("locale"@, web), ("page"@, "1"@), ("pageSize"@, "3"@)]
}

/// The URL requesting the latest articles in the language of `locale`.
pub fn news_url(locale: &str) -> (r: Result<String, String>)
    ensures
        web_locale_spec(locale@) is None ==> (r matches Err(e) && e@
            == "Unsupported news language."@),
        web_locale_spec(locale@) matches Some(w) ==> match r {
            Ok(u) => url_with_query_pairs(NEWS_API_URL@, news_query(w)) == Ok::<_, Seq<char>>(u@),
            Err(e) => url_with_query_pairs(NEWS_API_URL@, news_query(w)) == Err::<Seq<char>, _>(
                e@,
            ),
        },
{
    let web = web_locale(locale)?;
    let pairs: [(&str, &str); 3] = [("locale", web), ("page", "1"), ("pageSize", "3")];
    let slice = pairs.as_slice();
    assert(slice@.map_values(|p: (&str, &str)| (p.0@, p.1@)) =~= news_query(web@));
    url_with_query(NEWS_API_URL, slice)
}

/// Unicode general category `Cc` (`char::is_control`).
pub open spec fn is_control(c: char) -> bool {
    let u = c as u32;
    u <= 0x1F || (0x7F <= u && u <= 0x9F)
}

/// Displayable article text: not blank, at most `max` characters, no control character.
pub open spec fn text_ok(value: Seq<char>, max: nat) -> bool {
    trim(value).len() != 0 && value.len() <= max && forall|i: int|
        0 <= i < value.len() ==> !is_control(#[trigger] value[i])
}

/// Checks an article's title or summary.
pub fn validate_text(value: &str, max: usize) -> (r: Result<(), String>)
    ensures
        r is Ok <==> text_ok(value@, max as nat),
        r matches Err(e) ==> e@ == "Invalid news text."@,
{
    let chars = chars_of(value);
    let t = trimmed(chars.as_slice());
    if t.len() == 0 || chars.len() > max {
        return Err(owned("Invalid news text."));
    }
    let mut i: usize = 0;
    while i < chars.len()
        invariant
            i <= chars@.len(),
            chars@ == value@,
            forall|j: int| 0 <= j < i ==> !is_control(#[trigger] chars@[j]),
        decreases chars.len() - i,
    {
        let u = chars[i] as u32;
        if u <= 0x1F || (0x7F <= u && u <= 0x9F) {
            assert(is_control(chars@[i as int]));
            return Err(owned("Invalid news text."));
        }
        i += 1;
    }
    Ok(())
}

/// `YYYY-MM-DD`: ten bytes, dashes at 4 and 7, ASCII digits elsewhere.
pub open spec fn date_ok(b: Seq<u8>) -> bool {
    b.len() == 10 && forall|i: int|
        0 <= i < 10 ==> if i == 4 || i == 7 {
            #[trigger] b[i] == 45
        } else {
            48 <= b[i] && b[i] <= 57
        }
}

/// Checks a `YYYY-MM-DD` date.
pub fn valid_date(value: &[u8]) -> (r: bool)
    ensures
        r == date_ok(value@),
{
    if value.len() != 10 {
        return false;
    }
    let mut i: usize = 0;
    while i < 10
        invariant
            i <= 10,
            value@.len() == 10,
            forall|j: int|
                0 <= j < i ==> if j == 4 || j == 7 {
                    #[trigger] value@[j] == 45
                } else {
                    48 <= value@[j] && value@[j] <= 57
                },
        decreases 10 - i,
    {
        let c = value[i];
        let ok = if i == 4 || i == 7 {
            c == 45
        } else {
            c >= 48 && c <= 57
        };
        if !ok {
            return false;
        }
        i += 1;
    }
    true
}

/// A publication timestamp that starts with `YYYY-MM-DDT`.
pub open spec fn published_ok(b: Seq<u8>) -> bool {
    b.len() > 10 && date_ok(b.take(10)) && b[10] == 84
}

/// An article slug: 1 to 256 bytes of lower-case ASCII letters, digits and single dashes,
/// neither starting nor ending with a dash.
pub open spec fn slug_ok(b: Seq<u8>) -> bool {
    &&& b.len() != 0
    &&& b.len() <= 256
    &&& b[0] != 45
    &&& b.last() != 45
    &&& forall|i: int| 0 <= i < b.len() - 1 ==> !(#[trigger] b[i] == 45 && b[i + 1] == 45)
    &&& forall|i: int|
        0 <= i < b.len() ==> ((97 <= #[trigger] b[i] && b[i] <= 122) || (48 <= b[i] && b[i]
            <= 57) || b[i] == 45)
}

/// Checks an article slug.
pub fn valid_slug(value: &str) -> (r: bool)
    ensures
        r == slug_ok(bytes_of(value@)),
{
    let b = value.as_bytes();
    if b.len() == 0 || b.len() > 256 || b[0] == 45 || b[b.len() - 1] == 45 {
        return false;
    }
    let mut i: usize = 0;
    while i < b.len()
        invariant
            i <= b@.len(),
            b@ == bytes_of(value@),
            b@.len() >= 1,
            forall|j: int| 0 <= j < i && j < b@.len() - 1 ==> !(#[trigger] b@[j] == 45 && b@[j + 1] == 45),
            forall|j: int|
                0 <= j < i ==> ((97 <= #[trigger] b@[j] && b@[j] <= 122) || (48 <= b@[j] && b@[j]
                    <= 57) || b@[j] == 45),
        decreases b.len() - i,
    {
        let c = b[i];
        if !((c >= 97 && c <= 122) || (c >= 48 && c <= 57) || c == 45) {
            return false;
        }
        if i + 1 < b.len() && c == 45 && b[i + 1] == 45 {
            return false;
        }
        i += 1;
    }
    true
}

/// The error for the first refused article among `items`, if any.
pub open spec fn items_check(items: Seq<NewsItem>, expected: Seq<char>) -> Result<(), Seq<char>>
    decreases items.len(),
{
    if items.len() == 0 {
        Ok(())
    } else {
        match items_check(items.drop_last(), expected) {
            Err(e) => Err(e),
            Ok(()) => item_check(items.last(), expected),
        }
    }
}

/// The error for one refused article, if it is refused.
pub open spec fn item_check(item: NewsItem, expected: Seq<char>) -> Result<(), Seq<char>> {
    if item.locale@ != expected || !slug_ok(bytes_of(item.slug@)) {
        Err("Invalid news language or article slug."@)
    } else if !text_ok(item.title@, 512) || !text_ok(item.summary@, 4096) {
        Err("Invalid news text."@)
    } else if !published_ok(bytes_of(item.published_at@)) {
        Err("Invalid news publication date."@)
    } else {
        Ok(())
    }
}

/// The outcome of reading a news response of `document_len` bytes for `locale` whose JSON
/// decoded to `parsed` (or failed to decode with the given text).
pub open spec fn news_check(
    document_len: u64,
    locale: Seq<char>,
    parsed: Result<Seq<NewsItem>, Seq<char>>,
) -> Result<(), Seq<char>> {
    if document_len > MAX_NEWS_SIZE {
        Err("News response is too large."@)
    } else {
        match web_locale_spec(locale) {
            None => Err("Unsupported news language."@),
            Some(expected) => match parsed {
                Err(e) => Err("Invalid news response: "@ + e),
                Ok(items) => if items.len() > NEWS_COUNT {
                    Err("Too many news articles."@)
                } else {
                    items_check(items, expected)
                },
            },
        }
    }
}

/// The view of a decoded feed.
pub open spec fn feed_view(parsed: Result<NewsFeed, String>) -> Result<Seq<NewsItem>, Seq<char>> {
    match parsed {
        Ok(f) => Ok(f.items@),
        Err(e) => Err(e@),
    }
}

fn check_item(item: &NewsItem, expected: &str) -> (r: Result<(), String>)
    ensures
        match r {
            Ok(()) => item_check(*item, expected@) is Ok,
            Err(e) => item_check(*item, expected@) == Err::<(), _>(e@),
        },
{
    if !str_eq(item.locale.as_str(), expected) || !valid_slug(item.slug.as_str()) {
        return Err(owned("Invalid news language or article slug."));
    }
    validate_text(item.title.as_str(), 512)?;
    validate_text(item.summary.as_str(), 4096)?;
    let b = item.published_at.as_str().as_bytes();
    let mut dated = false;
    if b.len() > 10 {
        let mut head: Vec<u8> = Vec::new();
        let mut k: usize = 0;
        while k < 10
            invariant
                k <= 10 < b@.len(),
                head@ == b@.take(k as int),
            decreases 10 - k,
        {
            head.push(b[k]);
            assert(b@.take(k + 1) == b@.take(k as int).push(b@[k as int]));
            k += 1;
        }
        dated = valid_date(head.as_slice()) && b[10] == 84;
    }
    if !dated {
        return Err(owned("Invalid news publication date."));
    }
    Ok(())
}

proof fn lemma_items_prefix(items: Seq<NewsItem>, expected: Seq<char>, n: int)
    requires
        0 <= n < items.len(),
        items_check(items.take(n), expected) is Ok,
    ensures
        items_check(items.take(n + 1), expected) == item_check(items[n], expected),
{
    assert(items.take(n + 1).drop_last() =~= items.take(n));
}

proof fn lemma_items_error_persists(items: Seq<NewsItem>, expected: Seq<char>, n: int)
    requires
        0 <= n <= items.len(),
        items_check(items.take(n), expected) is Err,
    ensures
        items_check(items, expected) == items_check(items.take(n), expected),
    decreases items.len() - n,
{
    if n < items.len() {
        assert(items.take(n + 1).drop_last() =~= items.take(n));
        lemma_items_error_persists(items, expected, n + 1);
    } else {
        assert(items.take(n) =~= items);
    }
}

/// Accepts a news response of `document_len` bytes for `locale` whose JSON decoded to
/// `parsed`: size limit, supported language, at most three articles, and every article in
/// that language with a valid slug, displayable title and summary, and a dated timestamp.
pub fn load_news(document_len: u64, locale: &str, parsed: Result<NewsFeed, String>) -> (r: Result<
    NewsFeed,
    String,
>)
    ensures
        match r {
            Ok(feed) => news_check(document_len, locale@, feed_view(parsed)) is Ok && feed_view(
                parsed,
            ) == Ok::<_, Seq<char>>(feed.items@),
            Err(e) => news_check(document_len, locale@, feed_view(parsed)) == Err::<(), _>(e@),
        },
{
    if document_len > MAX_NEWS_SIZE {
        return Err(owned("News response is too large."));
    }
    let expected = web_locale(locale)?;
    let ghost pv = feed_view(parsed);
    let feed = match parsed {
        Err(error) => return Err(join2("Invalid news response: ", error.as_str())),
        Ok(feed) => feed,
    };
    if feed.items.len() > NEWS_COUNT {
        return Err(owned("Too many news articles."));
    }
    let ghost items = feed.items@;
    let mut i: usize = 0;
    assert(items.take(0) =~= Seq::<NewsItem>::empty());
    while i < feed.items.len()
        invariant
            i <= items.len(),
            items == feed.items@,
            pv == Ok::<_, Seq<char>>(items),
            pv == feed_view(parsed),
            items.len() <= NEWS_COUNT,
            document_len <= MAX_NEWS_SIZE,
            web_locale_spec(locale@) == Some(expected@),
            items_check(items.take(i as int), expected@) is Ok,
        decreases items.len() - i,
    {
        proof {
            lemma_items_prefix(items, expected@, i as int);
        }
        match check_item(&feed.items[i], expected) {
            Err(e) => {
                proof {
                    lemma_items_error_persists(items, expected@, i + 1);
                }
                return Err(e);
            },
            Ok(()) => {},
        }
        i += 1;
    }
    assert(items.take(items.len() as int) =~= items);
    Ok(feed)
}

/// Checks the response to a news request before its body is read.
pub fn check_news_response(status: u16, status_text: &str, content_length: Option<u64>) -> (r:
    Result<(), String>)
    ensures
        !(200 <= status && status <= 299) ==> (r matches Err(e) && e@ == "News unavailable ("@
            + status_text@ + ")."@),
        (200 <= status && status <= 299) && (content_length matches Some(n) && n > MAX_NEWS_SIZE)
            ==> (r matches Err(e) && e@ == "News response is too large."@),
        (200 <= status && status <= 299) && !(content_length matches Some(n) && n
            > MAX_NEWS_SIZE) ==> r is Ok,
{
    if !(status >= 200 && status <= 299) {
        return Err(join3("News unavailable (", status_text, ")."));
    }
    let announced = match content_length {
        Some(n) => n,
        None => 0,
    };
    if announced > MAX_NEWS_SIZE {
        return Err(owned("News response is too large."));
    }
    Ok(())
}

proof fn lemma_items_accepted(items: Seq<NewsItem>, expected: Seq<char>)
    requires
        items_check(items, expected) is Ok,
    ensures
        forall|i: int| 0 <= i < items.len() ==> #[trigger] item_check(items[i], expected) is Ok,
    decreases items.len(),
{
    if items.len() > 0 {
        lemma_items_accepted(items.drop_last(), expected);
        assert forall|i: int| 0 <= i < items.len() implies #[trigger] item_check(
            items[i],
            expected,
        ) is Ok by {
            if i < items.len() - 1 {
                assert(items[i] == items.drop_last()[i]);
            }
        }
    }
}

/// Invalid or oversized articles never reach the interface: an accepted response is within
/// the size limit, holds at most three articles, and each is in the requested language with a
/// valid slug, displayable title and summary, and a dated publication time.
pub proof fn accepted_news_is_valid(document_len: u64, locale: Seq<char>, items: Seq<NewsItem>)
    requires
        news_check(document_len, locale, Ok(items)) is Ok,
    ensures
        document_len <= MAX_NEWS_SIZE,
        web_locale_spec(locale) is Some,
        items.len() <= NEWS_COUNT,
        forall|i: int|
            0 <= i < items.len() ==> (#[trigger] items[i]).locale@ == web_locale_spec(locale)->0
                && slug_ok(bytes_of(items[i].slug@)) && text_ok(items[i].title@, 512) && text_ok(
                items[i].summary@,
                4096,
            ) && published_ok(bytes_of(items[i].published_at@)),
{
    let expected = web_locale_spec(locale)->0;
    lemma_items_accepted(items, expected);
    assert forall|i: int| 0 <= i < items.len() implies (#[trigger] items[i]).locale@ == expected
        && slug_ok(bytes_of(items[i].slug@)) && text_ok(items[i].title@, 512) && text_ok(
        items[i].summary@,
        4096,
    ) && published_ok(bytes_of(items[i].published_at@)) by {
        assert(item_check(items[i], expected) is Ok);
    }
}

} // verus!
