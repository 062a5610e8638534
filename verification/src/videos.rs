use crate::errors::{WakeBotError, WakeBotErrorKind};
use crate::text::{dec_rep, u64_to_dec};
use vstd::prelude::*;

verus! {

/// The playlist-entry identifier of one video, as the feed delivers it.
#[allow(non_snake_case)]
#[derive(Debug, Clone)]
pub struct PlaylistItemResourceId {
    pub videoId: String,
}

/// The descriptive part of one playlist entry.
#[allow(non_snake_case)]
#[derive(Debug, Clone)]
pub struct PlaylistItemSnippet {
    pub description: String,
    /// The publication instant, an RFC 3339 timestamp.
    pub publishedAt: String,
    pub resourceId: PlaylistItemResourceId,
    pub title: String,
}

/// One entry of the playlist feed.
#[derive(Debug, Clone)]
pub struct PlaylistItem {
    pub snippet: PlaylistItemSnippet,
}

/// The decoded playlist feed.
#[derive(Debug, Clone)]
pub struct YoutubeResponse {
    pub items: Vec<PlaylistItem>,
}

/// One video as announced to the chat.
#[derive(Debug, Clone)]
pub struct YoutubeVideoOverview {
    pub title: String,
    pub description: String,
    pub id: String,
    pub timestamp: String,
}

/// The videos newer than the last announcement: at most the five most
/// recent entries, with `overflow` marking that more were dropped.
#[derive(Debug)]
pub struct VideoResult {
    pub list: Vec<YoutubeVideoOverview>,
    pub overflow: bool,
}

/// What chrono reads an RFC 3339 timestamp as: `None` when the text does
/// not parse, else the instant as milliseconds since the epoch.
pub uninterp spec fn rfc3339_millis(s: Seq<char>) -> Option<i64>;

/// Relies on chrono's `DateTime::parse_from_rfc3339` and
/// `DateTime::timestamp_millis`: parsing is a pure function of the text,
/// and the epoch milliseconds depend on the parsed instant alone, so the
/// outcome is named `rfc3339_millis`.
#[verifier::external_body]
fn parse_rfc3339_millis(s: &str) -> (r: Option<i64>)
    ensures
        r == rfc3339_millis(s@),
{
    match chrono::DateTime::parse_from_rfc3339(s) {
        Ok(d) => Some(d.timestamp_millis()),
        Err(_) => None,
    }
}

/// Whether a feed entry was published after the given instant.  An entry
/// whose timestamp does not parse is never new.
pub open spec fn is_new_item(item: PlaylistItem, last_millis: i64) -> bool {
    match rfc3339_millis(item.snippet.publishedAt@) {
        Some(t) => t > last_millis,
        None => false,
    }
}

/// The new entries among the first `n` feed entries, in feed order.
pub open spec fn new_items(items: Seq<PlaylistItem>, last_millis: i64, n: int) -> Seq<PlaylistItem>
    decreases n,
{
    if n <= 0 {
        Seq::empty()
    } else {
        let pre = new_items(items, last_millis, n - 1);
        if is_new_item(items[n - 1], last_millis) {
            pre.push(items[n - 1])
        } else {
            pre
        }
    }
}

/// How an announced video corresponds to the feed entry it came from.
pub open spec fn overview_matches(o: YoutubeVideoOverview, item: PlaylistItem) -> bool {
    &&& o.title@ == item.snippet.title@
    &&& o.description@ == item.snippet.description@
    &&& o.id@ == item.snippet.resourceId.videoId@
    &&& o.timestamp@ == item.snippet.publishedAt@
}

fn make_overview(item: &PlaylistItem) -> (r: YoutubeVideoOverview)
    ensures
        overview_matches(r, *item),
{
    YoutubeVideoOverview {
        title: item.snippet.title.clone(),
        description: item.snippet.description.clone(),
        id: item.snippet.resourceId.videoId.clone(),
        timestamp: item.snippet.publishedAt.clone(),
    }
}

fn copy_overview(o: &YoutubeVideoOverview) -> (r: YoutubeVideoOverview)
    ensures
        r.title@ == o.title@,
        r.description@ == o.description@,
        r.id@ == o.id@,
        r.timestamp@ == o.timestamp@,
{
    YoutubeVideoOverview {
        title: o.title.clone(),
        description: o.description.clone(),
        id: o.id.clone(),
        timestamp: o.timestamp.clone(),
    }
}

/// The parsed publication instant of an announced video.
pub open spec fn entry_millis(o: YoutubeVideoOverview) -> Option<i64> {
    rfc3339_millis(o.timestamp@)
}

/// Whether entry `i` is the newest of the list, the last one among ties.
pub open spec fn latest_index(list: Seq<YoutubeVideoOverview>, i: int) -> bool {
    &&& 0 <= i < list.len()
    &&& forall|j: int|
        0 <= j < list.len() ==> entry_millis(#[trigger] list[j])->Some_0 <= entry_millis(
            list[i],
        )->Some_0
    &&& forall|j: int|
        i < j < list.len() ==> entry_millis(#[trigger] list[j])->Some_0 < entry_millis(
            list[i],
        )->Some_0
}

/// The newest announced video's timestamp, kept as the next announcement
/// threshold.  Every entry must carry a valid RFC 3339 timestamp and the
/// list must not be empty; among equally new entries the last one wins.
pub fn latest_timestamp(list: &Vec<YoutubeVideoOverview>) -> (r: Result<String, WakeBotError>)
    ensures
        ({
            let ok = list@.len() > 0 && forall|j: int|
                0 <= j < list@.len() ==> entry_millis(#[trigger] list@[j]) is Some;
            match r {
                Ok(t) => ok && exists|i: int|
                    #[trigger] latest_index(list@, i) && t@ == list@[i].timestamp@,
                Err(e) => !ok && e.kind == WakeBotErrorKind::Parse && e.details@
                    == "Invalid timestamp"@,
            }
        }),
{
    let n = list.len();
    if n == 0 {
        return Err(WakeBotError::with_kind(WakeBotErrorKind::Parse, "Invalid timestamp"));
    }
    let mut best: usize = 0;
    let mut best_millis: i64 = match parse_rfc3339_millis(list[0].timestamp.as_str()) {
        Some(t) => t,
        None => {
            return Err(WakeBotError::with_kind(WakeBotErrorKind::Parse, "Invalid timestamp"));
        },
    };
    let mut i: usize = 1;
    while i < n
        invariant
            1 <= i <= n,
            n == list@.len(),
            best < i,
            forall|j: int| 0 <= j < i ==> entry_millis(#[trigger] list@[j]) is Some,
            entry_millis(list@[best as int]) == Some(best_millis),
            forall|j: int|
                0 <= j < i ==> entry_millis(#[trigger] list@[j])->Some_0 <= best_millis,
            forall|j: int|
                best < j < i ==> entry_millis(#[trigger] list@[j])->Some_0 < best_millis,
        decreases n - i,
    {
        let m = match parse_rfc3339_millis(list[i].timestamp.as_str()) {
            Some(t) => t,
            None => {
                return Err(WakeBotError::with_kind(WakeBotErrorKind::Parse, "Invalid timestamp"));
            },
        };
        if m >= best_millis {
            best = i;
            best_millis = m;
        }
        i += 1;
    }
    proof {
        assert(latest_index(list@, best as int));
    }
    Ok(list[best].timestamp.clone())
}

/// One numbered line of the announcement, linking the video.
pub open spec fn video_line(o: YoutubeVideoOverview, idx: int) -> Seq<char> {
    dec_rep((idx + 1) as nat) + ". "@ + o.title@ + " - https://www.youtube.com/watch?v="@ + o.id@
        + "\n"@
}

/// The numbered lines for the first `n` announced videos.
pub open spec fn video_lines(list: Seq<YoutubeVideoOverview>, n: int) -> Seq<char>
    decreases n,
{
    if n <= 0 {
        Seq::empty()
    } else {
        video_lines(list, n - 1) + video_line(list[n - 1], n - 1)
    }
}

/// The whole announcement text for a selection of new videos and the
/// formatted timestamp of the previous announcement.
pub open spec fn update_message_model(
    list: Seq<YoutubeVideoOverview>,
    overflow: bool,
    ts: Seq<char>,
) -> Seq<char> {
    if list.len() == 0 {
        "No videos added to Bael's playlist since "@ + ts
    } else if overflow {
        "More than five videos have been added to Bael's playlist since "@ + ts
            + " UTC.\nDisplaying the last five.\n\n"@ + video_lines(list, list.len() as int)
    } else if list.len() == 1 {
        dec_rep(list.len()) + " video has been added to Bael's playlist since "@ + ts
            + " UTC.\n\n"@ + video_lines(list, list.len() as int)
    } else {
        dec_rep(list.len()) + " videos have been added to Bael's playlist since "@ + ts
            + " UTC.\n\n"@ + video_lines(list, list.len() as int)
    }
}

/// Renders the chat announcement for the selected videos.  `timestamp` is
/// the previous announcement instant, already formatted for display.
pub fn format_video_update(result: &VideoResult, timestamp: &str) -> (r: String)
    ensures
        r@ == update_message_model(result.list@, result.overflow, timestamp@),
{
    let count = result.list.len();
    if count == 0 {
        let mut msg = String::new();
        msg.append("No videos added to Bael's playlist since ");
        msg.append(timestamp);
        return msg;
    }
    let mut lines = String::new();
    let mut k: usize = 0;
    while k < count
        invariant
            k <= count,
            count == result.list@.len(),
            lines@ == video_lines(result.list@, k as int),
        decreases count - k,
    {
        let num = u64_to_dec((k as u64) + 1);
        lines.append(num.as_str());
        lines.append(". ");
        lines.append(result.list[k].title.as_str());
        lines.append(" - https://www.youtube.com/watch?v=");
        lines.append(result.list[k].id.as_str());
        lines.append("\n");
        proof {
            assert(lines@ =~= video_lines(result.list@, k + 1));
        }
        k += 1;
    }
    let mut msg = String::new();
    if result.overflow {
        msg.append("More than five videos have been added to Bael's playlist since ");
        msg.append(timestamp);
        msg.append(" UTC.\nDisplaying the last five.\n\n");
    } else {
        let num = u64_to_dec(count as u64);
        msg.append(num.as_str());
        if count == 1 {
            msg.append(" video has been added to Bael's playlist since ");
        } else {
            msg.append(" videos have been added to Bael's playlist since ");
        }
        msg.append(timestamp);
        msg.append(" UTC.\n\n");
    }
    msg.append(lines.as_str());
    proof {
        assert(msg@ =~= update_message_model(result.list@, result.overflow, timestamp@));
    }
    msg
}

/// Selects from a fetched playlist feed the videos published after the
/// last announced instant, in feed order.  When more than five are new,
/// only the last five of them are kept and `overflow` is set.  The last
/// announced instant must itself be a valid RFC 3339 timestamp.
pub fn select_new_videos(items: &Vec<PlaylistItem>, last_timestamp: &str) -> (r: Result<
    VideoResult,
    WakeBotError,
>)
    ensures
        ({
            match rfc3339_millis(last_timestamp@) {
                None => r is Err && r->Err_0.kind == WakeBotErrorKind::Parse && r->Err_0.details@
                    == "Invalid timestamp"@,
                Some(lm) => {
                    let fil = new_items(items@, lm, items@.len() as int);
                    &&& r is Ok
                    &&& r->Ok_0.overflow == (fil.len() > 5)
                    &&& r->Ok_0.list@.len() == (if fil.len() > 5 {
                        5int
                    } else {
                        fil.len() as int
                    })
                    &&& forall|n: int|
                        0 <= n < r->Ok_0.list@.len() ==> overview_matches(
                            #[trigger] r->Ok_0.list@[n],
                            fil[if fil.len() > 5 {
                                n + fil.len() - 5
                            } else {
                                n
                            }],
                        )
                },
            }
        }),
{
    let lm: i64 = match parse_rfc3339_millis(last_timestamp) {
        Some(t) => t,
        None => {
            return Err(WakeBotError::with_kind(WakeBotErrorKind::Parse, "Invalid timestamp"));
        },
    };
    let count = items.len();
    let mut fil: Vec<YoutubeVideoOverview> = Vec::new();
    let mut i: usize = 0;
    while i < count
        invariant
            i <= count,
            count == items@.len(),
            rfc3339_millis(last_timestamp@) == Some(lm),
            fil@.len() == new_items(items@, lm, i as int).len(),
            forall|n: int|
                0 <= n < fil@.len() ==> overview_matches(
                    #[trigger] fil@[n],
                    new_items(items@, lm, i as int)[n],
                ),
        decreases count - i,
    {
        let item = &items[i];
        let is_new = match parse_rfc3339_millis(item.snippet.publishedAt.as_str()) {
            Some(t) => t > lm,
            None => false,
        };
        proof {
            assert(is_new == is_new_item(items@[i as int], lm));
        }
        if is_new {
            fil.push(make_overview(item));
        }
        i += 1;
    }
    let flen = fil.len();
    if flen > 5 {
        let mut list: Vec<YoutubeVideoOverview> = Vec::new();
        let mut k: usize = 0;
        while k < 5
            invariant
                k <= 5,
                5 < flen == fil@.len(),
                list@.len() == k,
                forall|n: int| 0 <= n < k ==> #[trigger] list@[n].title@ == fil@[n + flen - 5].title@
                    && list@[n].description@ == fil@[n + flen - 5].description@ && list@[n].id@
                    == fil@[n + flen - 5].id@ && list@[n].timestamp@ == fil@[n + flen - 5].timestamp@,
            decreases 5 - k,
        {
            list.push(copy_overview(&fil[flen - 5 + k]));
            k += 1;
        }
        Ok(VideoResult { list, overflow: true })
    } else {
        Ok(VideoResult { list: fil, overflow: false })
    }
}

} // verus!
