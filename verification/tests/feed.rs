use worms_ssh::feed::{
    announce_join, announce_kills, buried_message, join_message, kill_notices_of, name_of,
    notice_message, vanished_message, verb_count, verb_text, Feed, Notice, VerbTable,
    METEOR_WARNING,
};
use worms_ssh::game::METEOR_OWNER;
use worms_ssh::rng::seeded;

fn roster() -> Vec<(u64, String)> {
    vec![(1, "ann".to_string()), (2, "bo".to_string()), (3, "cy".to_string())]
}

#[test]
fn verb_tables_hold_the_full_phrase_books() {
    assert_eq!(verb_count(VerbTable::Join), 14);
    assert_eq!(verb_count(VerbTable::Frag), 32);
    assert_eq!(verb_count(VerbTable::Suicide), 22);
    assert_eq!(verb_count(VerbTable::Mutual), 12);
    assert_eq!(verb_count(VerbTable::Meteor), 8);
    assert_eq!(verb_text(VerbTable::Join, 0), "tunneled into the arena");
    assert_eq!(verb_text(VerbTable::Frag, 31), "negotiated with a missile against");
    assert_eq!(verb_text(VerbTable::Meteor, 7), "received express delivery from the void");
}

#[test]
fn kills_pair_into_mutual_notices() {
    let kills = vec![(1, 2), (3, 3), (2, 1), (METEOR_OWNER, 3), (2, 3)];
    let notices = kill_notices_of(&kills);
    assert_eq!(
        notices,
        vec![
            Notice::Mutual { first: 1, second: 2 },
            Notice::Suicide { victim: 3 },
            Notice::Meteor { victim: 3 },
            Notice::Frag { killer: 2, victim: 3 },
        ]
    );
}

#[test]
fn a_kill_answered_twice_pairs_only_with_the_first_answer() {
    let kills = vec![(1, 2), (2, 1), (2, 1)];
    assert_eq!(
        kill_notices_of(&kills),
        vec![Notice::Mutual { first: 1, second: 2 }, Notice::Frag { killer: 2, victim: 1 }]
    );
    assert!(kill_notices_of(&Vec::new()).is_empty());
}

#[test]
fn every_kill_is_reported_once() {
    let kills = vec![(1, 2), (2, 1), (3, 1), (1, 3), (2, 2), (3, 2)];
    let notices = kill_notices_of(&kills);
    let reported: usize = notices
        .iter()
        .map(|n| match n {
            Notice::Mutual { .. } => 2,
            _ => 1,
        })
        .sum();
    assert_eq!(reported, kills.len());
}

#[test]
fn notice_lines_name_the_worms_involved() {
    let r = roster();
    assert_eq!(
        notice_message(Notice::Frag { killer: 1, victim: 2 }, &r, 0),
        "ann vaporized bo"
    );
    assert_eq!(
        notice_message(Notice::Mutual { first: 2, second: 3 }, &r, 0),
        "bo and cy annihilated each other"
    );
    assert_eq!(
        notice_message(Notice::Suicide { victim: 3 }, &r, 1),
        "cy found out gravity is real"
    );
    assert_eq!(
        notice_message(Notice::Meteor { victim: 9 }, &r, 0),
        " got cosmically yeeted"
    );
    assert_eq!(name_of(&r, 2), "bo");
    assert_eq!(name_of(&r, 42), "");
}

#[test]
fn announced_kills_use_a_phrase_of_the_right_table() {
    let mut rng = seeded(3);
    let lines = announce_kills(&vec![(1, 2), (2, 1), (3, 3)], &roster(), &mut rng);
    assert_eq!(lines.len(), 2);
    let mutual = (0..verb_count(VerbTable::Mutual))
        .any(|i| lines[0] == format!("ann and bo {}", verb_text(VerbTable::Mutual, i)));
    let suicide = (0..verb_count(VerbTable::Suicide))
        .any(|i| lines[1] == format!("cy {}", verb_text(VerbTable::Suicide, i)));
    assert!(mutual && suicide, "{lines:?}");
}

#[test]
fn joins_and_departures_are_announced() {
    assert_eq!(join_message("arrival", 0), "arrival tunneled into the arena");
    let mut rng = seeded(8);
    let line = announce_join("zed", &mut rng);
    assert!((0..verb_count(VerbTable::Join))
        .any(|i| line == format!("zed {}", verb_text(VerbTable::Join, i))));
    assert_eq!(vanished_message("ann"), "ann vanished");
    assert_eq!(buried_message("bo"), "bo was buried alive");
    assert_eq!(METEOR_WARNING, "a meteor screams down from the sky");
}

#[test]
fn the_feed_keeps_the_four_newest_lines_newest_first() {
    let mut feed = Feed::new();
    for (tick, text) in ["a", "b", "c", "d", "e"].iter().enumerate() {
        feed.say(tick as u64, text.to_string());
    }
    assert_eq!(feed.messages(), vec!["e", "d", "c", "b"]);
    assert_eq!(feed.entries[0].0, 4);
}

#[test]
fn feed_lines_expire_after_eight_seconds() {
    let mut feed = Feed::new();
    feed.say(100, "old".to_string());
    feed.say(500, "new".to_string());
    feed.expire(500);
    assert_eq!(feed.messages(), vec!["new", "old"]);
    feed.expire(501);
    assert_eq!(feed.messages(), vec!["new"]);
    feed.expire(10);
    assert_eq!(feed.messages(), vec!["new"]);
    feed.expire(901);
    assert!(feed.messages().is_empty());
}

#[test]
fn phrases_are_drawn_at_random() {
    let mut rng = seeded(99);
    let lines: std::collections::HashSet<String> =
        (0..40).map(|_| announce_join("w", &mut rng)).collect();
    assert!(lines.len() > 1);
}
