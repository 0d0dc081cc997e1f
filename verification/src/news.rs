//! News items and collections: one fetched article with its platform
//! tags and timestamp, the in-place platform filter, and the deciders
//! that pick which items a channel is owed.

use vstd::prelude::*;

use crate::freshness::{
    fresh_at, now_epoch_seconds, pacific_epoch_of, spec_fresh, spec_within_weeks, within_weeks_at,
};
use crate::platforms::{icons_for_selected, matches_platforms, spec_icons};
use crate::platforms::platforms_match;
use crate::text::{contains_seq, contains_str, contains_u64, find_match, str_chars, views_of};

verus! {

/// One news article from a fetch: immutable once constructed. Articles
/// count as the same exactly when their `id`s are equal.
pub struct NewsItem {
    pub id: u64,
    pub title: String,
    pub summary: String,
    pub platforms: Vec<String>,
    pub updated: String,
    pub thumbnail_url: Option<String>,
}

/// The tag an article is judged to carry, read off its title: articles
/// titled as patch notes form their own tag, everything else carries
/// the general game tag.
pub open spec fn tag_of(title: Seq<char>) -> Seq<char> {
    if contains_seq(title, "Patch Notes"@) {
        "patch-notes"@
    } else {
        "star-trek-online"@
    }
}

impl NewsItem {
    pub fn new(
        id: u64,
        title: String,
        summary: String,
        platforms: Vec<String>,
        updated: String,
        thumbnail_url: Option<String>,
    ) -> (r: NewsItem)
        ensures
            r.id == id,
            r.title == title,
            r.summary == summary,
            r.platforms == platforms,
            r.updated == updated,
            r.thumbnail_url == thumbnail_url,
    {
        NewsItem { id, title, summary, platforms, updated, thumbnail_url }
    }

    pub fn get_id(&self) -> (r: u64)
        ensures
            r == self.id,
    {
        self.id
    }

    pub fn get_title(&self) -> (r: &str)
        ensures
            r@ == self.title@,
    {
        self.title.as_str()
    }

    pub fn get_thumbnail_url(&self) -> (r: Option<&str>)
        ensures
            r is Some <==> self.thumbnail_url is Some,
            r is Some ==> r->0@ == self.thumbnail_url->0@,
    {
        match &self.thumbnail_url {
            Some(s) => Some(s.as_str()),
            None => None,
        }
    }

    /// The tag of this article, inferred from its title.
    pub fn get_tag(&self) -> (r: &str)
        ensures
            r@ == tag_of(self.title@),
    {
        let title_chars = str_chars(self.title.as_str());
        let needle = str_chars("Patch Notes");
        match find_match(&title_chars, &needle, 0) {
            Some(_) => "patch-notes",
            None => "star-trek-online",
        }
    }

    /// Whether this article's timestamp is within `diff_threshold`
    /// seconds of the instant `now`, in either direction.
    pub fn is_fresh_at(&self, now: i64, diff_threshold: u64) -> (r: bool)
        ensures
            r == spec_fresh(self.updated@, now as int, diff_threshold as int),
    {
        fresh_at(self.updated.as_str(), now, diff_threshold)
    }

    /// Freshness against the current clock. A timestamp that denotes no
    /// instant is never fresh; otherwise the answer is freshness at
    /// whatever the clock read.
    pub fn is_fresh(&self, diff_threshold: u64) -> (r: bool)
        ensures
            pacific_epoch_of(self.updated@) is None ==> r == false,
            exists|n: int| r == spec_fresh(self.updated@, n, diff_threshold as int),
    {
        let now = now_epoch_seconds();
        let r = self.is_fresh_at(now, diff_threshold);
        proof {
            assert(r == spec_fresh(self.updated@, now as int, diff_threshold as int));
        }
        r
    }

    /// Whether this article's timestamp is within `weeks` whole weeks of
    /// the instant `now`.
    pub fn is_within_weeks_at(&self, now: i64, weeks: u32) -> (r: bool)
        ensures
            r == spec_within_weeks(self.updated@, now as int, weeks as int),
    {
        within_weeks_at(self.updated.as_str(), now, weeks)
    }

    /// The week-window check against the current clock.
    pub fn is_within_weeks(&self, weeks: u32) -> (r: bool)
        ensures
            pacific_epoch_of(self.updated@) is None ==> r == false,
            exists|n: int| r == spec_within_weeks(self.updated@, n, weeks as int),
    {
        let now = now_epoch_seconds();
        let r = self.is_within_weeks_at(now, weeks);
        proof {
            assert(r == spec_within_weeks(self.updated@, now as int, weeks as int));
        }
        r
    }

    /// The article's summary together with the icon references of its
    /// platform tags that the subscription selects.
    pub fn format_with_platforms(&self, selected_platforms: &Vec<String>) -> (r: (
        String,
        Vec<String>,
    ))
        ensures
            r.0@ == self.summary@,
            views_of(r.1@) == spec_icons(views_of(self.platforms@), views_of(
                selected_platforms@,
            )),
    {
        let summary = self.summary.clone();
        let icons = icons_for_selected(&self.platforms, selected_platforms);
        (summary, icons)
    }
}

impl PartialEq for NewsItem {
    fn eq(&self, other: &Self) -> (r: bool) {
        self.id == other.id
    }
}

impl vstd::std_specs::cmp::PartialEqSpecImpl for NewsItem {
    open spec fn obeys_eq_spec() -> bool {
        true
    }

    open spec fn eq_spec(&self, other: &Self) -> bool {
        self.id == other.id
    }
}

/// The items of `items` whose platform tags intersect `sel`, in their
/// original order.
pub open spec fn matching_items(items: Seq<NewsItem>, sel: Seq<String>) -> Seq<NewsItem>
    decreases items.len(),
{
    if items.len() == 0 {
        Seq::empty()
    } else {
        let rest = matching_items(items.drop_last(), sel);
        if matches_platforms(items.last().platforms@, sel) {
            rest.push(items.last())
        } else {
            rest
        }
    }
}

/// One fetched batch of news items, in the order the source returned
/// them.
pub struct News {
    pub news: Vec<NewsItem>,
}

impl News {
    pub fn new(news: Vec<NewsItem>) -> (r: News)
        ensures
            r.news == news,
    {
        News { news }
    }

    pub fn items(&self) -> (r: &Vec<NewsItem>)
        ensures
            r == &self.news,
    {
        &self.news
    }

    pub fn len(&self) -> (r: usize)
        ensures
            r == self.news@.len(),
    {
        self.news.len()
    }

    /// Drop, in place, every item whose platform tags do not intersect
    /// `platforms`; report whether any item remains.
    pub fn filter_news_by_platform(&mut self, platforms: &Vec<String>) -> (r: bool)
        ensures
            final(self).news@ == matching_items(old(self).news@, platforms@),
            r == (final(self).news@.len() >= 1),
    {
        let ghost orig = self.news@;
        let mut stack: Vec<NewsItem> = Vec::new();
        loop
            invariant
                stack@.len() + self.news@.len() == orig.len(),
                self.news@ == orig.take(self.news@.len() as int),
                forall|k: int| 0 <= k < stack@.len() ==> stack@[k] == orig[orig.len() - 1 - k],
            ensures
                self.news@.len() == 0,
                stack@.len() == orig.len(),
                forall|k: int| 0 <= k < stack@.len() ==> stack@[k] == orig[orig.len() - 1 - k],
            decreases self.news@.len(),
        {
            let ghost before = self.news@;
            match self.news.pop() {
                Some(it) => {
                    proof {
                        assert(it == orig[before.len() - 1]);
                        assert(self.news@ =~= orig.take(self.news@.len() as int));
                    }
                    stack.push(it);
                },
                None => {
                    break;
                },
            }
        }
        proof {
            assert(self.news@.len() == 0);
            assert(orig.take(0) =~= Seq::<NewsItem>::empty());
        }
        loop
            invariant
                stack@.len() <= orig.len(),
                forall|k: int| 0 <= k < stack@.len() ==> stack@[k] == orig[orig.len() - 1 - k],
                self.news@ == matching_items(
                    orig.take((orig.len() - stack@.len()) as int),
                    platforms@,
                ),
            ensures
                stack@.len() == 0,
                self.news@ == matching_items(
                    orig.take((orig.len() - stack@.len()) as int),
                    platforms@,
                ),
            decreases stack@.len(),
        {
            let ghost done = (orig.len() - stack@.len()) as int;
            match stack.pop() {
                Some(it) => {
                    proof {
                        assert(it == orig[done]);
                        let t = orig.take(done + 1);
                        assert(t.drop_last() =~= orig.take(done));
                        assert(t.last() == orig[done]);
                    }
                    if platforms_match(&it.platforms, platforms) {
                        self.news.push(it);
                    }
                },
                None => {
                    break;
                },
            }
        }
        proof {
            assert(orig.take(orig.len() as int) =~= orig);
        }
        self.news.len() >= 1
    }
}

/// The items not yet posted and still fresh at `now`: the ordered
/// subsequence of `items` whose id is outside `posted` and whose
/// timestamp is within `thr` seconds of `now`.
pub open spec fn fresh_undelivered(
    items: Seq<NewsItem>,
    posted: Seq<u64>,
    now: int,
    thr: int,
) -> Seq<NewsItem>
    decreases items.len(),
{
    if items.len() == 0 {
        Seq::empty()
    } else {
        let rest = fresh_undelivered(items.drop_last(), posted, now, thr);
        let it = items.last();
        if !posted.contains(it.id) && spec_fresh(it.updated@, now, thr) {
            rest.push(it)
        } else {
            rest
        }
    }
}

/// Decide which items of a platform-filtered batch must be delivered:
/// those whose id is not among the already-posted ids and whose
/// timestamp is fresh at `now`. Returns the indices into `news`, in
/// source order.
pub fn select_fresh_unposted(news: &News, posted: &Vec<u64>, now: i64, fresh_seconds: u64) -> (r:
    Vec<usize>)
    ensures
        forall|k: int| 0 <= k < r@.len() ==> r@[k] < news.news@.len(),
        r@.map_values(|i: usize| news.news@[i as int]) == fresh_undelivered(
            news.news@,
            posted@,
            now as int,
            fresh_seconds as int,
        ),
{
    let mut out: Vec<usize> = Vec::new();
    let mut i: usize = 0;
    let n = news.news.len();
    proof {
        assert(news.news@.take(0) =~= Seq::<NewsItem>::empty());
    }
    while i < n
        invariant
            0 <= i <= n,
            n == news.news@.len(),
            forall|k: int| 0 <= k < out@.len() ==> out@[k] < i,
            out@.map_values(|j: usize| news.news@[j as int]) == fresh_undelivered(
                news.news@.take(i as int),
                posted@,
                now as int,
                fresh_seconds as int,
            ),
        decreases n - i,
    {
        let ghost t = news.news@.take(i + 1);
        proof {
            assert(t.drop_last() =~= news.news@.take(i as int));
            assert(t.last() == news.news@[i as int]);
        }
        let it = &news.news[i];
        let ghost prev = out@;
        if !contains_u64(posted, it.id) && it.is_fresh_at(now, fresh_seconds) {
            out.push(i);
            proof {
                assert(out@.drop_last() =~= prev);
                assert(out@.map_values(|j: usize| news.news@[j as int]) =~= prev.map_values(
                    |j: usize| news.news@[j as int],
                ).push(news.news@[i as int]));
            }
        }
        i = i + 1;
    }
    proof {
        assert(news.news@.take(n as int) =~= news.news@);
    }
    out
}


/// The items an on-demand query owes: those within the week window at
/// `now` whose tag is not excluded, in source order.
pub open spec fn on_demand_items(
    items: Seq<NewsItem>,
    now: int,
    weeks: int,
    excluded: Seq<Seq<char>>,
) -> Seq<NewsItem>
    decreases items.len(),
{
    if items.len() == 0 {
        Seq::empty()
    } else {
        let rest = on_demand_items(items.drop_last(), now, weeks, excluded);
        let it = items.last();
        if spec_within_weeks(it.updated@, now, weeks) && !excluded.contains(tag_of(it.title@)) {
            rest.push(it)
        } else {
            rest
        }
    }
}

/// The selection over a prefix is a prefix of the selection.
proof fn lemma_on_demand_prefix(
    items: Seq<NewsItem>,
    now: int,
    weeks: int,
    excluded: Seq<Seq<char>>,
    i: int,
)
    requires
        0 <= i <= items.len(),
    ensures
        on_demand_items(items.take(i), now, weeks, excluded).len() <= on_demand_items(
            items,
            now,
            weeks,
            excluded,
        ).len(),
        on_demand_items(items.take(i), now, weeks, excluded) == on_demand_items(
            items,
            now,
            weeks,
            excluded,
        ).take(on_demand_items(items.take(i), now, weeks, excluded).len() as int),
    decreases items.len(),
{
    let whole = on_demand_items(items, now, weeks, excluded);
    if i == items.len() {
        assert(items.take(i) =~= items);
        assert(whole.take(whole.len() as int) =~= whole);
    } else {
        let d = items.drop_last();
        assert(items.take(i) =~= d.take(i));
        lemma_on_demand_prefix(d, now, weeks, excluded, i);
        let p = on_demand_items(d.take(i), now, weeks, excluded);
        assert(whole.take(p.len() as int) =~= on_demand_items(d, now, weeks, excluded).take(
            p.len() as int,
        ));
    }
}

/// Decide which items an on-demand query returns: those within `weeks`
/// of `now`, with no excluded tag, up to `limit` many, in source order.
/// Returns the indices into `news`.
pub fn select_on_demand(
    news: &News,
    now: i64,
    weeks: u32,
    excluded: &Vec<String>,
    limit: usize,
) -> (r: Vec<usize>)
    ensures
        forall|k: int| 0 <= k < r@.len() ==> r@[k] < news.news@.len(),
        r@.map_values(|i: usize| news.news@[i as int]) == ({
            let sel = on_demand_items(news.news@, now as int, weeks as int, views_of(excluded@));
            if sel.len() <= limit {
                sel
            } else {
                sel.take(limit as int)
            }
        }),
{
    let mut out: Vec<usize> = Vec::new();
    let mut i: usize = 0;
    let n = news.news.len();
    let ghost exviews = views_of(excluded@);
    proof {
        assert(news.news@.take(0) =~= Seq::<NewsItem>::empty());
    }
    while i < n && out.len() < limit
        invariant
            0 <= i <= n,
            n == news.news@.len(),
            out@.len() <= limit,
            forall|k: int| 0 <= k < out@.len() ==> out@[k] < i,
            exviews == views_of(excluded@),
            out@.map_values(|j: usize| news.news@[j as int]) == on_demand_items(
                news.news@.take(i as int),
                now as int,
                weeks as int,
                exviews,
            ),
        decreases n - i,
    {
        let ghost t = news.news@.take(i + 1);
        proof {
            assert(t.drop_last() =~= news.news@.take(i as int));
            assert(t.last() == news.news@[i as int]);
        }
        let it = &news.news[i];
        let ghost prev = out@;
        if it.is_within_weeks_at(now, weeks) {
            let tag = it.get_tag();
            if !contains_str(excluded, tag) {
                out.push(i);
                proof {
                    assert(out@.drop_last() =~= prev);
                    assert(out@.map_values(|j: usize| news.news@[j as int]) =~= prev.map_values(
                        |j: usize| news.news@[j as int],
                    ).push(news.news@[i as int]));
                }
            }
        }
        i = i + 1;
    }
    proof {
        let sel = on_demand_items(news.news@, now as int, weeks as int, exviews);
        if i == n {
            assert(news.news@.take(n as int) =~= news.news@);
            if sel.len() <= limit {
            } else {
                assert(false);
            }
        } else {
            assert(out@.len() == limit);
            lemma_on_demand_prefix(news.news@, now as int, weeks as int, exviews, i as int);
        }
    }
    out
}

} // verus!
