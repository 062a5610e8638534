use wakebot::errors::WakeBotErrorKind;
use wakebot::videos::{select_new_videos, PlaylistItem, PlaylistItemResourceId, PlaylistItemSnippet};

fn item(title: &str, id: &str, published: &str) -> PlaylistItem {
    PlaylistItem {
        snippet: PlaylistItemSnippet {
            description: String::from("desc"),
            publishedAt: String::from(published),
            resourceId: PlaylistItemResourceId { videoId: String::from(id) },
            title: String::from(title),
        },
    }
}

#[test]
fn keeps_only_videos_after_last_timestamp() {
    let items = vec![
        item("old", "a", "2023-01-01T00:00:00Z"),
        item("new", "b", "2023-03-01T12:30:00Z"),
        item("same", "c", "2023-02-21T00:00:00Z"),
    ];
    let res = select_new_videos(&items, "2023-02-21T00:00:00Z").unwrap();
    assert!(!res.overflow);
    assert_eq!(res.list.len(), 1);
    assert_eq!(res.list[0].title, "new");
    assert_eq!(res.list[0].id, "b");
    assert_eq!(res.list[0].timestamp, "2023-03-01T12:30:00Z");
}

#[test]
fn unparseable_timestamps_are_skipped() {
    let items = vec![
        item("bad", "a", "not a date"),
        item("good", "b", "2024-01-01T00:00:00Z"),
    ];
    let res = select_new_videos(&items, "2023-01-01T00:00:00Z").unwrap();
    assert_eq!(res.list.len(), 1);
    assert_eq!(res.list[0].title, "good");
}

#[test]
fn timezone_offsets_are_respected() {
    // 01:00 at +02:00 is 23:00 UTC of the previous day.
    let items = vec![item("early", "a", "2023-02-21T01:00:00+02:00")];
    let res = select_new_videos(&items, "2023-02-21T00:00:00Z").unwrap();
    assert_eq!(res.list.len(), 0);
}

#[test]
fn more_than_five_keeps_last_five_and_overflows() {
    let mut items = Vec::new();
    for n in 1..=7 {
        let stamp = format!("2024-01-0{}T00:00:00Z", n);
        let name = format!("v{}", n);
        items.push(item(&name, &name, &stamp));
    }
    let res = select_new_videos(&items, "2023-01-01T00:00:00Z").unwrap();
    assert!(res.overflow);
    assert_eq!(res.list.len(), 5);
    assert_eq!(res.list[0].title, "v3");
    assert_eq!(res.list[4].title, "v7");
}

#[test]
fn latest_timestamp_picks_newest() {
    let res = select_new_videos(
        &vec![
            item("b", "b", "2024-02-01T00:00:00Z"),
            item("c", "c", "2024-03-01T00:00:00Z"),
            item("a", "a", "2024-01-01T00:00:00Z"),
        ],
        "2023-01-01T00:00:00Z",
    )
    .unwrap();
    let newest = wakebot::videos::latest_timestamp(&res.list).unwrap();
    assert_eq!(newest, "2024-03-01T00:00:00Z");
}

#[test]
fn latest_timestamp_rejects_empty_and_bad() {
    let empty: Vec<wakebot::videos::YoutubeVideoOverview> = Vec::new();
    assert!(wakebot::videos::latest_timestamp(&empty).is_err());
    let res = select_new_videos(
        &vec![item("a", "a", "2024-01-01T00:00:00Z")],
        "2023-01-01T00:00:00Z",
    )
    .unwrap();
    let mut list = res.list;
    list[0].timestamp = String::from("garbage");
    assert!(wakebot::videos::latest_timestamp(&list).is_err());
}

#[test]
fn update_message_counts_and_links() {
    let res = select_new_videos(
        &vec![
            item("First", "id1", "2024-01-01T00:00:00Z"),
            item("Second", "id2", "2024-02-01T00:00:00Z"),
        ],
        "2023-01-01T00:00:00Z",
    )
    .unwrap();
    let msg = wakebot::videos::format_video_update(&res, "2023/01/01 00:00:00");
    assert_eq!(
        msg,
        "2 videos have been added to Bael's playlist since 2023/01/01 00:00:00 UTC.\n\n\
         1. First - https://www.youtube.com/watch?v=id1\n\
         2. Second - https://www.youtube.com/watch?v=id2\n"
    );
}

#[test]
fn update_message_singular_and_empty() {
    let one = select_new_videos(
        &vec![item("Only", "idx", "2024-01-01T00:00:00Z")],
        "2023-01-01T00:00:00Z",
    )
    .unwrap();
    let msg = wakebot::videos::format_video_update(&one, "T");
    assert_eq!(
        msg,
        "1 video has been added to Bael's playlist since T UTC.\n\n\
         1. Only - https://www.youtube.com/watch?v=idx\n"
    );
    let none = select_new_videos(&Vec::new(), "2023-01-01T00:00:00Z").unwrap();
    let msg2 = wakebot::videos::format_video_update(&none, "T");
    assert_eq!(msg2, "No videos added to Bael's playlist since T");
}

#[test]
fn update_message_overflow() {
    let mut items = Vec::new();
    for n in 1..=7 {
        let stamp = format!("2024-01-0{}T00:00:00Z", n);
        let name = format!("v{}", n);
        items.push(item(&name, &name, &stamp));
    }
    let res = select_new_videos(&items, "2023-01-01T00:00:00Z").unwrap();
    let msg = wakebot::videos::format_video_update(&res, "T");
    assert!(msg.starts_with(
        "More than five videos have been added to Bael's playlist since T UTC.\nDisplaying the last five.\n\n1. v3"
    ));
}

#[test]
fn invalid_last_timestamp_is_rejected() {
    let items = vec![item("x", "x", "2024-01-01T00:00:00Z")];
    let err = select_new_videos(&items, "yesterday").unwrap_err();
    assert_eq!(err.kind, WakeBotErrorKind::Parse);
}
