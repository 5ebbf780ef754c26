//! The lines of the kill feed: who joined, who fell and how, and the feed that keeps
//! the most recent of them on screen for a few seconds.
use vstd::prelude::*;
use rand::rngs::SmallRng;
use crate::game::{PlayerId, METEOR_OWNER, TICK_RATE};
use crate::rng::random_between;
use crate::text::{push_char, push_text};

verus! {

/// The phrase books the feed draws its verbs from.
#[derive(Debug, Clone, Copy, PartialEq, Eq, Structural)]
pub enum VerbTable {
    Join,
    Frag,
    Suicide,
    Mutual,
    Meteor,
}

/// How many phrases a table holds.
pub open spec fn table_len(t: VerbTable) -> nat {
    match t {
        VerbTable::Join => 14,
        VerbTable::Frag => 32,
        VerbTable::Suicide => 22,
        VerbTable::Mutual => 12,
        VerbTable::Meteor => 8,
    }
}

/// How many phrases a table holds.
pub fn verb_count(t: VerbTable) -> (n: usize)
    ensures
        n == table_len(t),
{
    match t {
        VerbTable::Join => 14,
        VerbTable::Frag => 32,
        VerbTable::Suicide => 22,
        VerbTable::Mutual => 12,
        VerbTable::Meteor => 8,
    }
}

/// Phrase `i` of the join table.
pub open spec fn verb_join(i: int) -> Seq<char> {
    if i == 0 {
        "tunneled into the arena"@
    } else if i == 1 {
        "wormed in"@
    } else if i == 2 {
        "joined the party uninvited"@
    } else if i == 3 {
        "spawned with intent"@
    } else if i == 4 {
        "is here to ruin somebody's day"@
    } else if i == 5 {
        "materialized from the soil"@
    } else if i == 6 {
        "logged in for chaos"@
    } else if i == 7 {
        "wriggled onto the scene"@
    } else if i == 8 {
        "appeared, looking suspicious"@
    } else if i == 9 {
        "got out of bed for this"@
    } else if i == 10 {
        "checked in for the apocalypse"@
    } else if i == 11 {
        "rolled the spawn dice"@
    } else if i == 12 {
        "answered the call"@
    } else {
        "showed up with a rocket and a dream"@
    }
}

/// Phrase `i` of the frag table.
pub open spec fn verb_frag(i: int) -> Seq<char> {
    if i == 0 {
        "vaporized"@
    } else if i == 1 {
        "deleted"@
    } else if i == 2 {
        "yeeted"@
    } else if i == 3 {
        "atomized"@
    } else if i == 4 {
        "obliterated"@
    } else if i == 5 {
        "rocket-tagged"@
    } else if i == 6 {
        "sent to the shadow realm"@
    } else if i == 7 {
        "introduced to gravity"@
    } else if i == 8 {
        "uninstalled"@
    } else if i == 9 {
        "tactically removed"@
    } else if i == 10 {
        "redistributed across the map"@
    } else if i == 11 {
        "converted to particle effects"@
    } else if i == 12 {
        "popped"@
    } else if i == 13 {
        "decommissioned"@
    } else if i == 14 {
        "kebab'd"@
    } else if i == 15 {
        "memory-freed"@
    } else if i == 16 {
        "404'd"@
    } else if i == 17 {
        "garbage-collected"@
    } else if i == 18 {
        "minced"@
    } else if i == 19 {
        "vented to space"@
    } else if i == 20 {
        "field-stripped"@
    } else if i == 21 {
        "force-pushed off the map"@
    } else if i == 22 {
        "discombobulated"@
    } else if i == 23 {
        "explained gravity to"@
    } else if i == 24 {
        "added to the changelog"@
    } else if i == 25 {
        "rebooted with prejudice"@
    } else if i == 26 {
        "applied percussive maintenance to"@
    } else if i == 27 {
        "evicted"@
    } else if i == 28 {
        "rage-quit on behalf of"@
    } else if i == 29 {
        "deprecated"@
    } else if i == 30 {
        "served a takedown notice to"@
    } else {
        "negotiated with a missile against"@
    }
}

/// Phrase `i` of the suicide table.
pub open spec fn verb_suicide(i: int) -> Seq<char> {
    if i == 0 {
        "cratered themselves"@
    } else if i == 1 {
        "found out gravity is real"@
    } else if i == 2 {
        "forgot they were holding it"@
    } else if i == 3 {
        "skipped the middleman"@
    } else if i == 4 {
        "rage-quit via grenade"@
    } else if i == 5 {
        "ate their own rocket"@
    } else if i == 6 {
        "self-recycled"@
    } else if i == 7 {
        "demonstrated the blast radius"@
    } else if i == 8 {
        "tested the weapon on themselves"@
    } else if i == 9 {
        "yeeted themselves into the void"@
    } else if i == 10 {
        "ran their own QA"@
    } else if i == 11 {
        "achieved enlightenment, painfully"@
    } else if i == 12 {
        "speedran the respawn timer"@
    } else if i == 13 {
        "panicked and pressed Enter"@
    } else if i == 14 {
        "DM'd themselves a rocket"@
    } else if i == 15 {
        "discovered the muzzle was reversed"@
    } else if i == 16 {
        "wrote their own obituary"@
    } else if i == 17 {
        "unsubscribed from the server"@
    } else if i == 18 {
        "took the express lane to respawn"@
    } else if i == 19 {
        "applied the patch directly to face"@
    } else if i == 20 {
        "auto-completed their own funeral"@
    } else {
        "selected the wrong target lock"@
    }
}

/// Phrase `i` of the mutual table.
pub open spec fn verb_mutual(i: int) -> Seq<char> {
    if i == 0 {
        "annihilated each other"@
    } else if i == 1 {
        "exchanged farewells via ordnance"@
    } else if i == 2 {
        "ran into each other's missiles"@
    } else if i == 3 {
        "agreed to disagree, explosively"@
    } else if i == 4 {
        "double-tapped each other"@
    } else if i == 5 {
        "shook hands and detonated"@
    } else if i == 6 {
        "demonstrated peer review"@
    } else if i == 7 {
        "high-fived through a grenade"@
    } else if i == 8 {
        "tied for worst tactical decision"@
    } else if i == 9 {
        "deleted each other from existence"@
    } else if i == 10 {
        "synchronized their respawn timers"@
    } else {
        "achieved mutually assured deletion"@
    }
}

/// Phrase `i` of the meteor table.
pub open spec fn verb_meteor(i: int) -> Seq<char> {
    if i == 0 {
        "got cosmically yeeted"@
    } else if i == 1 {
        "made a fossil of themselves"@
    } else if i == 2 {
        "lost an argument with a falling rock"@
    } else if i == 3 {
        "served as the dinosaurs' revenge target"@
    } else if i == 4 {
        "found out about gravity from space"@
    } else if i == 5 {
        "was selected by the heavens"@
    } else if i == 6 {
        "starred in their own extinction event"@
    } else {
        "received express delivery from the void"@
    }
}

/// Phrase `i` of table `t`.
pub open spec fn verb(t: VerbTable, i: int) -> Seq<char> {
    match t {
        VerbTable::Join => verb_join(i),
        VerbTable::Frag => verb_frag(i),
        VerbTable::Suicide => verb_suicide(i),
        VerbTable::Mutual => verb_mutual(i),
        VerbTable::Meteor => verb_meteor(i),
    }
}

/// Phrase `i` of table `t`.
pub fn verb_text(t: VerbTable, i: usize) -> (v: &'static str)
    requires
        i < table_len(t),
    ensures
        v@ == verb(t, i as int),
{
    match t {
        VerbTable::Join => match i {
            0 => "tunneled into the arena",
            1 => "wormed in",
            2 => "joined the party uninvited",
            3 => "spawned with intent",
            4 => "is here to ruin somebody's day",
            5 => "materialized from the soil",
            6 => "logged in for chaos",
            7 => "wriggled onto the scene",
            8 => "appeared, looking suspicious",
            9 => "got out of bed for this",
            10 => "checked in for the apocalypse",
            11 => "rolled the spawn dice",
            12 => "answered the call",
            _ => "showed up with a rocket and a dream",
        },
        VerbTable::Frag => match i {
            0 => "vaporized",
            1 => "deleted",
            2 => "yeeted",
            3 => "atomized",
            4 => "obliterated",
            5 => "rocket-tagged",
            6 => "sent to the shadow realm",
            7 => "introduced to gravity",
            8 => "uninstalled",
            9 => "tactically removed",
            10 => "redistributed across the map",
            11 => "converted to particle effects",
            12 => "popped",
            13 => "decommissioned",
            14 => "kebab'd",
            15 => "memory-freed",
            16 => "404'd",
            17 => "garbage-collected",
            18 => "minced",
            19 => "vented to space",
            20 => "field-stripped",
            21 => "force-pushed off the map",
            22 => "discombobulated",
            23 => "explained gravity to",
            24 => "added to the changelog",
            25 => "rebooted with prejudice",
            26 => "applied percussive maintenance to",
            27 => "evicted",
            28 => "rage-quit on behalf of",
            29 => "deprecated",
            30 => "served a takedown notice to",
            _ => "negotiated with a missile against",
        },
        VerbTable::Suicide => match i {
            0 => "cratered themselves",
            1 => "found out gravity is real",
            2 => "forgot they were holding it",
            3 => "skipped the middleman",
            4 => "rage-quit via grenade",
            5 => "ate their own rocket",
            6 => "self-recycled",
            7 => "demonstrated the blast radius",
            8 => "tested the weapon on themselves",
            9 => "yeeted themselves into the void",
            10 => "ran their own QA",
            11 => "achieved enlightenment, painfully",
            12 => "speedran the respawn timer",
            13 => "panicked and pressed Enter",
            14 => "DM'd themselves a rocket",
            15 => "discovered the muzzle was reversed",
            16 => "wrote their own obituary",
            17 => "unsubscribed from the server",
            18 => "took the express lane to respawn",
            19 => "applied the patch directly to face",
            20 => "auto-completed their own funeral",
            _ => "selected the wrong target lock",
        },
        VerbTable::Mutual => match i {
            0 => "annihilated each other",
            1 => "exchanged farewells via ordnance",
            2 => "ran into each other's missiles",
            3 => "agreed to disagree, explosively",
            4 => "double-tapped each other",
            5 => "shook hands and detonated",
            6 => "demonstrated peer review",
            7 => "high-fived through a grenade",
            8 => "tied for worst tactical decision",
            9 => "deleted each other from existence",
            10 => "synchronized their respawn timers",
            _ => "achieved mutually assured deletion",
        },
        VerbTable::Meteor => match i {
            0 => "got cosmically yeeted",
            1 => "made a fossil of themselves",
            2 => "lost an argument with a falling rock",
            3 => "served as the dinosaurs' revenge target",
            4 => "found out about gravity from space",
            5 => "was selected by the heavens",
            6 => "starred in their own extinction event",
            _ => "received express delivery from the void",
        },
    }
}

/// Picks a phrase of table `t` at random.
pub fn pick_verb(t: VerbTable, rng: &mut SmallRng) -> (r: (usize, &'static str))
    ensures
        r.0 < table_len(t),
        r.1@ == verb(t, r.0 as int),
{
    let n = verb_count(t);
    let i = random_between(rng, 0, (n - 1) as i32);
    let i = i as usize;
    (i, verb_text(t, i))
}

/// What the feed says about one kill, or about two worms that killed each other.
#[derive(Debug, Clone, Copy, PartialEq, Eq, Structural)]
pub enum Notice {
    /// A worm died under a meteor.
    Meteor { victim: PlayerId },
    /// Two worms killed each other in the same tick.
    Mutual { first: PlayerId, second: PlayerId },
    /// A worm killed itself.
    Suicide { victim: PlayerId },
    /// One worm killed another.
    Frag { killer: PlayerId, victim: PlayerId },
}

/// Whether kill `j` answers kill `i`: the victim of the one is the killer of the other.
pub open spec fn answers(kills: Seq<(PlayerId, PlayerId)>, i: int, j: int) -> bool {
    kills[j].0 == kills[i].1 && kills[j].1 == kills[i].0
}

/// The first kill from `j` on that answers kill `i` and is not yet reported.
pub open spec fn partner_from(kills: Seq<(PlayerId, PlayerId)>, used: Seq<bool>, i: int, j: int) -> Option<int>
    decreases kills.len() - j,
{
    if j >= kills.len() {
        None
    } else if !used[j] && answers(kills, i, j) {
        Some(j)
    } else {
        partner_from(kills, used, i, j + 1)
    }
}

/// The later kill that pairs with kill `i`, if its killer did not kill itself.
pub open spec fn partner(kills: Seq<(PlayerId, PlayerId)>, used: Seq<bool>, i: int) -> Option<int> {
    if kills[i].0 == kills[i].1 {
        None
    } else {
        partner_from(kills, used, i, i + 1)
    }
}

/// The notice for `kill`, where `mutual` tells whether a later kill answered it.
pub open spec fn notice_of(kill: (PlayerId, PlayerId), mutual: bool) -> Notice {
    if kill.0 == METEOR_OWNER {
        Notice::Meteor { victim: kill.1 }
    } else if mutual {
        Notice::Mutual { first: kill.0, second: kill.1 }
    } else if kill.0 == kill.1 {
        Notice::Suicide { victim: kill.1 }
    } else {
        Notice::Frag { killer: kill.0, victim: kill.1 }
    }
}

/// The notices for the kills from `i` on, where `used` marks kills already reported.
pub open spec fn notices_from(kills: Seq<(PlayerId, PlayerId)>, used: Seq<bool>, i: int) -> Seq<Notice>
    decreases kills.len() - i,
{
    if i >= kills.len() {
        Seq::empty()
    } else if used[i] {
        notices_from(kills, used, i + 1)
    } else {
        let p = partner(kills, used, i);
        let rest = match p {
            Some(j) => used.update(j, true),
            None => used,
        };
        seq![notice_of(kills[i], p is Some)] + notices_from(kills, rest, i + 1)
    }
}

/// The notices for a tick's kills, given as (killer, victim) pairs in the order they
/// happened: each kill in turn, paired with the first later kill that answers it.
pub open spec fn kill_notices(kills: Seq<(PlayerId, PlayerId)>) -> Seq<Notice> {
    notices_from(kills, Seq::new(kills.len(), |k: int| false), 0)
}

fn notice_for(kill: (PlayerId, PlayerId), mutual: bool) -> (n: Notice)
    ensures
        n == notice_of(kill, mutual),
{
    if kill.0 == METEOR_OWNER {
        Notice::Meteor { victim: kill.1 }
    } else if mutual {
        Notice::Mutual { first: kill.0, second: kill.1 }
    } else if kill.0 == kill.1 {
        Notice::Suicide { victim: kill.1 }
    } else {
        Notice::Frag { killer: kill.0, victim: kill.1 }
    }
}

fn find_partner(kills: &Vec<(PlayerId, PlayerId)>, used: &Vec<bool>, i: usize) -> (r: Option<usize>)
    requires
        i < kills.len(),
        used.len() == kills.len(),
    ensures
        partner(kills@, used@, i as int) == (match r {
            Some(j) => Some(j as int),
            None => None::<int>,
        }),
        r matches Some(j) ==> i < j < kills.len() && !used@[j as int] && answers(
            kills@,
            i as int,
            j as int,
        ),
{
    let (k1, v1) = kills[i];
    if k1 == v1 {
        return None;
    }
    let mut j: usize = i + 1;
    while j < kills.len()
        invariant
            i < j <= kills.len(),
            used.len() == kills.len(),
            k1 == kills@[i as int].0,
            v1 == kills@[i as int].1,
            k1 != v1,
            partner(kills@, used@, i as int) == partner_from(kills@, used@, i as int, j as int),
        decreases kills.len() - j,
    {
        if !used[j] && kills[j].0 == v1 && kills[j].1 == k1 {
            return Some(j);
        }
        j = j + 1;
    }
    None
}

/// The notices for a tick's kills.
pub fn kill_notices_of(kills: &Vec<(PlayerId, PlayerId)>) -> (notices: Vec<Notice>)
    ensures
        notices@ == kill_notices(kills@),
{
    let n = kills.len();
    let mut used: Vec<bool> = Vec::new();
    let mut k: usize = 0;
    while k < n
        invariant
            k <= n,
            used@ == Seq::new(k as nat, |t: int| false),
        decreases n - k,
    {
        used.push(false);
        k = k + 1;
        proof {
            assert(used@ =~= Seq::new(k as nat, |t: int| false));
        }
    }
    let mut notices: Vec<Notice> = Vec::new();
    let mut i: usize = 0;
    while i < n
        invariant
            n == kills.len(),
            used.len() == n,
            i <= n,
            notices@ + notices_from(kills@, used@, i as int) == kill_notices(kills@),
        decreases n - i,
    {
        if used[i] {
            i = i + 1;
        } else {
            let p = find_partner(kills, &used, i);
            let ghost before = used@;
            let ghost tail = notices_from(kills@, before, i as int);
            match p {
                Some(j) => {
                    used.set(j, true);
                },
                None => {},
            }
            let notice = notice_for(kills[i], p.is_some());
            proof {
                assert(tail == seq![notice] + notices_from(kills@, used@, i as int + 1));
                assert(notices@.push(notice) + notices_from(kills@, used@, i as int + 1) =~= notices@
                    + tail);
            }
            notices.push(notice);
            i = i + 1;
        }
    }
    proof {
        assert(notices@ + notices_from(kills@, used@, n as int) =~= notices@);
    }
    notices
}

/// How many kills a notice reports: two for a pair that killed each other, else one.
pub open spec fn weight(n: Notice) -> nat {
    match n {
        Notice::Mutual { .. } => 2,
        _ => 1,
    }
}

/// How many kills a run of notices reports.
pub open spec fn reported(notices: Seq<Notice>) -> nat
    decreases notices.len(),
{
    if notices.len() == 0 {
        0
    } else {
        weight(notices[0]) + reported(notices.drop_first())
    }
}

/// How many kills from `i` on are not yet reported.
pub open spec fn open_count(used: Seq<bool>, i: int) -> nat
    decreases used.len() - i,
{
    if i < 0 || i >= used.len() {
        0
    } else {
        (if used[i] {
            0nat
        } else {
            1nat
        }) + open_count(used, i + 1)
    }
}

proof fn lemma_partner_from(kills: Seq<(PlayerId, PlayerId)>, used: Seq<bool>, i: int, j: int)
    requires
        0 <= j,
        used.len() == kills.len(),
    ensures
        partner_from(kills, used, i, j) matches Some(k) ==> j <= k < kills.len() && !used[k]
            && answers(kills, i, k),
    decreases kills.len() - j,
{
    if j < kills.len() && !(!used[j] && answers(kills, i, j)) {
        lemma_partner_from(kills, used, i, j + 1);
    }
}

proof fn lemma_open_count_same(a: Seq<bool>, b: Seq<bool>, i: int)
    requires
        0 <= i,
        a.len() == b.len(),
        forall|k: int| i <= k < a.len() ==> a[k] == b[k],
    ensures
        open_count(a, i) == open_count(b, i),
    decreases a.len() - i,
{
    if i < a.len() {
        lemma_open_count_same(a, b, i + 1);
    }
}

proof fn lemma_open_count_mark(used: Seq<bool>, i: int, j: int)
    requires
        0 <= i <= j < used.len(),
        !used[j],
    ensures
        open_count(used.update(j, true), i) + 1 == open_count(used, i),
    decreases j - i,
{
    if i < j {
        lemma_open_count_mark(used, i + 1, j);
    } else {
        lemma_open_count_same(used.update(j, true), used, j + 1);
    }
}

proof fn lemma_reported_concat(n: Notice, rest: Seq<Notice>)
    ensures
        reported(seq![n] + rest) == weight(n) + reported(rest),
{
    assert((seq![n] + rest).drop_first() =~= rest);
}

proof fn lemma_notices_report(kills: Seq<(PlayerId, PlayerId)>, used: Seq<bool>, i: int)
    requires
        0 <= i <= kills.len(),
        used.len() == kills.len(),
        forall|k: int| 0 <= k < kills.len() ==> kills[k].1 != METEOR_OWNER,
    ensures
        reported(notices_from(kills, used, i)) == open_count(used, i),
    decreases kills.len() - i,
{
    if i < kills.len() {
        if used[i] {
            lemma_notices_report(kills, used, i + 1);
        } else {
            let p = partner(kills, used, i);
            if kills[i].0 != kills[i].1 {
                lemma_partner_from(kills, used, i, i + 1);
            }
            let rest = match p {
                Some(j) => used.update(j, true),
                None => used,
            };
            lemma_notices_report(kills, rest, i + 1);
            lemma_reported_concat(notice_of(kills[i], p is Some), notices_from(kills, rest, i + 1));
            match p {
                Some(j) => {
                    lemma_open_count_mark(used, i + 1, j);
                    assert(kills[i].0 != METEOR_OWNER);
                },
                None => {},
            }
        }
    }
}

proof fn lemma_open_count_fresh(n: nat, i: int)
    requires
        0 <= i <= n,
    ensures
        open_count(Seq::new(n, |k: int| false), i) == n - i,
    decreases n - i,
{
    if i < n {
        lemma_open_count_fresh(n, i + 1);
    }
}

/// Every kill of a tick reaches the feed exactly once: a pair of worms that killed
/// each other shares one notice, every other kill has its own. (A kill whose victim
/// carries the meteor's owner number is left out: no worm has that number.)
pub proof fn lemma_each_kill_reported_once(kills: Seq<(PlayerId, PlayerId)>)
    requires
        forall|k: int| 0 <= k < kills.len() ==> kills[k].1 != METEOR_OWNER,
    ensures
        reported(kill_notices(kills)) == kills.len(),
{
    lemma_notices_report(kills, Seq::new(kills.len(), |k: int| false), 0);
    lemma_open_count_fresh(kills.len(), 0);
}

/// The players' numbers and names as plain values.
pub open spec fn roster_of(roster: Seq<(PlayerId, String)>) -> Seq<(PlayerId, Seq<char>)> {
    roster.map_values(|e: (PlayerId, String)| (e.0, e.1@))
}

/// The name of player `id`: the first entry with that number, or nothing.
pub open spec fn name_in(roster: Seq<(PlayerId, Seq<char>)>, id: PlayerId) -> Seq<char>
    decreases roster.len(),
{
    if roster.len() == 0 {
        Seq::empty()
    } else if roster[0].0 == id {
        roster[0].1
    } else {
        name_in(roster.drop_first(), id)
    }
}

/// Looks up the name of player `id`; a player that has left has an empty name.
pub fn name_of(roster: &Vec<(PlayerId, String)>, id: PlayerId) -> (name: String)
    ensures
        name@ == name_in(roster_of(roster@), id),
{
    let ghost all = roster_of(roster@);
    proof {
        assert(all.skip(0) =~= all);
    }
    let mut i: usize = 0;
    while i < roster.len()
        invariant
            i <= roster.len(),
            all == roster_of(roster@),
            name_in(all, id) == name_in(all.skip(i as int), id),
        decreases roster.len() - i,
    {
        proof {
            assert(all.skip(i as int)[0] == all[i as int]);
            assert(all.skip(i as int).drop_first() =~= all.skip(i as int + 1));
        }
        if roster[i].0 == id {
            return roster[i].1.clone();
        }
        i = i + 1;
    }
    proof {
        assert(all.skip(i as int).len() == 0);
    }
    String::new()
}

/// The table a notice takes its verb from.
pub open spec fn table_of(n: Notice) -> VerbTable {
    match n {
        Notice::Meteor { .. } => VerbTable::Meteor,
        Notice::Mutual { .. } => VerbTable::Mutual,
        Notice::Suicide { .. } => VerbTable::Suicide,
        Notice::Frag { .. } => VerbTable::Frag,
    }
}

/// The feed line for a notice, with phrase `v` of its table.
pub open spec fn notice_text(n: Notice, roster: Seq<(PlayerId, Seq<char>)>, v: int) -> Seq<char> {
    match n {
        Notice::Meteor { victim } => name_in(roster, victim) + seq![' '] + verb(VerbTable::Meteor, v),
        Notice::Mutual { first, second } => name_in(roster, first) + " and "@ + name_in(
            roster,
            second,
        ) + seq![' '] + verb(VerbTable::Mutual, v),
        Notice::Suicide { victim } => name_in(roster, victim) + seq![' '] + verb(
            VerbTable::Suicide,
            v,
        ),
        Notice::Frag { killer, victim } => name_in(roster, killer) + seq![' '] + verb(
            VerbTable::Frag,
            v,
        ) + seq![' '] + name_in(roster, victim),
    }
}

fn table_for(n: Notice) -> (t: VerbTable)
    ensures
        t == table_of(n),
{
    match n {
        Notice::Meteor { .. } => VerbTable::Meteor,
        Notice::Mutual { .. } => VerbTable::Mutual,
        Notice::Suicide { .. } => VerbTable::Suicide,
        Notice::Frag { .. } => VerbTable::Frag,
    }
}

/// Writes the feed line for a notice with phrase `verb_index` of its table.
pub fn notice_message(notice: Notice, roster: &Vec<(PlayerId, String)>, verb_index: usize) -> (m: String)
    requires
        verb_index < table_len(table_of(notice)),
    ensures
        m@ == notice_text(notice, roster_of(roster@), verb_index as int),
{
    let v = verb_text(table_for(notice), verb_index);
    match notice {
        Notice::Meteor { victim } => {
            let mut m = name_of(roster, victim);
            push_char(&mut m, ' ');
            push_text(&mut m, v);
            m
        },
        Notice::Mutual { first, second } => {
            let mut m = name_of(roster, first);
            push_text(&mut m, " and ");
            let other = name_of(roster, second);
            push_text(&mut m, other.as_str());
            push_char(&mut m, ' ');
            push_text(&mut m, v);
            m
        },
        Notice::Suicide { victim } => {
            let mut m = name_of(roster, victim);
            push_char(&mut m, ' ');
            push_text(&mut m, v);
            m
        },
        Notice::Frag { killer, victim } => {
            let mut m = name_of(roster, killer);
            push_char(&mut m, ' ');
            push_text(&mut m, v);
            push_char(&mut m, ' ');
            let target = name_of(roster, victim);
            push_text(&mut m, target.as_str());
            m
        },
    }
}

/// Whether `line` is the feed line for notice `n` with some phrase of its table.
pub open spec fn tells(line: Seq<char>, n: Notice, roster: Seq<(PlayerId, Seq<char>)>) -> bool {
    exists|v: int| 0 <= v < table_len(table_of(n)) && line == #[trigger] notice_text(n, roster, v)
}

/// The feed lines for a tick's kills, one per notice, each with a phrase drawn at
/// random from its notice's table.
pub fn announce_kills(kills: &Vec<(PlayerId, PlayerId)>, roster: &Vec<(PlayerId, String)>, rng: &mut SmallRng) -> (lines: Vec<String>)
    ensures
        lines.len() == kill_notices(kills@).len(),
        forall|i: int|
            0 <= i < lines.len() ==> tells(
                #[trigger] lines@[i]@,
                kill_notices(kills@)[i],
                roster_of(roster@),
            ),
{
    let notices = kill_notices_of(kills);
    let mut lines: Vec<String> = Vec::new();
    let mut i: usize = 0;
    while i < notices.len()
        invariant
            i <= notices.len(),
            notices@ == kill_notices(kills@),
            lines.len() == i,
            forall|k: int|
                0 <= k < i ==> tells(#[trigger] lines@[k]@, notices@[k], roster_of(roster@)),
        decreases notices.len() - i,
    {
        let notice = notices[i];
        let (v, _) = pick_verb(table_for(notice), rng);
        let line = notice_message(notice, roster, v);
        let ghost before = lines@;
        lines.push(line);
        proof {
            assert(tells(line@, notice, roster_of(roster@)));
            assert forall|k: int| 0 <= k < i + 1 implies tells(
                #[trigger] lines@[k]@,
                notices@[k],
                roster_of(roster@),
            ) by {
                if k < i {
                    assert(lines@[k] == before[k]);
                }
            }
        }
        i = i + 1;
    }
    lines
}

/// The feed line for a worm that joins, with phrase `v` of the join table.
pub open spec fn join_text(name: Seq<char>, v: int) -> Seq<char> {
    name + seq![' '] + verb(VerbTable::Join, v)
}

/// Writes the line that greets a worm joining under `name`.
pub fn join_message(name: &str, verb_index: usize) -> (m: String)
    requires
        verb_index < table_len(VerbTable::Join),
    ensures
        m@ == join_text(name@, verb_index as int),
{
    let mut m = name.to_owned();
    push_char(&mut m, ' ');
    push_text(&mut m, verb_text(VerbTable::Join, verb_index));
    m
}

/// Greets a worm joining under `name` with a phrase drawn at random.
pub fn announce_join(name: &str, rng: &mut SmallRng) -> (m: String)
    ensures
        exists|v: int| 0 <= v < table_len(VerbTable::Join) && m@ == join_text(name@, v),
{
    let (v, _) = pick_verb(VerbTable::Join, rng);
    join_message(name, v)
}

/// Writes the line for a worm whose player left.
pub fn vanished_message(name: &str) -> (m: String)
    ensures
        m@ == name@ + " vanished"@,
{
    let mut m = name.to_owned();
    push_text(&mut m, " vanished");
    m
}

/// Writes the line for a worm that growing earth closed over.
pub fn buried_message(name: &str) -> (m: String)
    ensures
        m@ == name@ + " was buried alive"@,
{
    let mut m = name.to_owned();
    push_text(&mut m, " was buried alive");
    m
}

/// The line that announces a meteor.
pub const METEOR_WARNING: &'static str = "a meteor screams down from the sky";

/// How long a line stays in the feed.
pub const FEED_TTL_TICKS: u64 = 400;
/// How many lines the feed shows at most.
pub const FEED_LIMIT: usize = 4;

/// The kill feed: the most recent lines, newest first, each with the tick it was said.
pub struct Feed {
    pub entries: Vec<(u64, String)>,
}

/// A feed's lines as plain values.
pub open spec fn feed_view(entries: Seq<(u64, String)>) -> Seq<(u64, Seq<char>)> {
    entries.map_values(|e: (u64, String)| (e.0, e.1@))
}

/// The lines of `s` said at tick `cutoff` or later, in order.
pub open spec fn said_since(s: Seq<(u64, Seq<char>)>, cutoff: u64) -> Seq<(u64, Seq<char>)>
    decreases s.len(),
{
    if s.len() == 0 {
        Seq::empty()
    } else if s.last().0 >= cutoff {
        said_since(s.drop_last(), cutoff).push(s.last())
    } else {
        said_since(s.drop_last(), cutoff)
    }
}

/// The first tick whose lines are still shown at tick `now`.
pub open spec fn feed_cutoff(now: u64) -> u64 {
    if now >= FEED_TTL_TICKS {
        (now - FEED_TTL_TICKS) as u64
    } else {
        0
    }
}

/// The feed once `message`, said at `tick`, is put at its top and cut to four lines.
pub open spec fn after_saying(before: Seq<(u64, Seq<char>)>, tick: u64, message: Seq<char>) -> Seq<(u64, Seq<char>)> {
    let all = seq![(tick, message)] + before;
    if all.len() <= FEED_LIMIT {
        all
    } else {
        all.take(FEED_LIMIT as int)
    }
}

impl View for Feed {
    type V = Seq<(u64, Seq<char>)>;

    open spec fn view(&self) -> Seq<(u64, Seq<char>)> {
        feed_view(self.entries@)
    }
}

impl Feed {
    /// An empty feed.
    pub fn new() -> (f: Feed)
        ensures
            f@ == Seq::<(u64, Seq<char>)>::empty(),
    {
        let f = Feed { entries: Vec::new() };
        assert(f@ =~= Seq::<(u64, Seq<char>)>::empty());
        f
    }

    /// Puts `message`, said at `tick`, at the top of the feed; the oldest lines beyond
    /// the fourth drop off.
    pub fn say(&mut self, tick: u64, message: String)
        ensures
            final(self)@ == after_saying(old(self)@, tick, message@),
    {
        let ghost m = message@;
        let ghost before = self.entries@;
        self.entries.insert(0, (tick, message));
        let ghost inserted = self.entries@;
        self.entries.truncate(FEED_LIMIT);
        proof {
            let all = seq![(tick, m)] + feed_view(before);
            assert(feed_view(inserted) =~= all);
            if all.len() <= FEED_LIMIT {
                assert(self.entries@ == inserted);
            } else {
                assert(self.entries@ == inserted.subrange(0, FEED_LIMIT as int));
                assert(feed_view(self.entries@) =~= all.take(FEED_LIMIT as int));
            }
        }
    }

    /// Drops the lines older than the feed's lifetime at tick `now`.
    pub fn expire(&mut self, now: u64)
        ensures
            final(self)@ == said_since(old(self)@, feed_cutoff(now)),
    {
        let cutoff = now.saturating_sub(FEED_TTL_TICKS);
        let ghost all = self@;
        let mut kept: Vec<(u64, String)> = Vec::new();
        let mut i: usize = 0;
        while i < self.entries.len()
            invariant
                i <= self.entries.len(),
                all == feed_view(self.entries@),
                cutoff == feed_cutoff(now),
                feed_view(kept@) == said_since(all.take(i as int), cutoff),
            decreases self.entries.len() - i,
        {
            let ghost prefix = feed_view(kept@);
            proof {
                assert(all.take(i as int + 1).drop_last() =~= all.take(i as int));
                assert(all.take(i as int + 1).last() == all[i as int]);
            }
            if self.entries[i].0 >= cutoff {
                let line = self.entries[i].1.clone();
                kept.push((self.entries[i].0, line));
                proof {
                    assert(feed_view(kept@) =~= prefix.push(all[i as int]));
                }
            }
            i = i + 1;
        }
        proof {
            assert(all.take(i as int) =~= all);
        }
        self.entries = kept;
    }

    /// The feed's messages, newest first.
    pub fn messages(&self) -> (lines: Vec<String>)
        ensures
            lines.len() == self@.len(),
            forall|i: int| 0 <= i < lines.len() ==> #[trigger] lines@[i]@ == self@[i].1,
    {
        let mut lines: Vec<String> = Vec::new();
        let mut i: usize = 0;
        while i < self.entries.len()
            invariant
                i <= self.entries.len(),
                lines.len() == i,
                forall|k: int| 0 <= k < i ==> #[trigger] lines@[k]@ == self.entries@[k].1@,
            decreases self.entries.len() - i,
        {
            lines.push(self.entries[i].1.clone());
            i = i + 1;
        }
        lines
    }
}

/// A feed never shows more than four lines, and the line just said comes first.
pub proof fn lemma_feed_keeps_newest_four(before: Seq<(u64, Seq<char>)>, tick: u64, message: Seq<char>)
    ensures
        ({
            let after = after_saying(before, tick, message);
            &&& after.len() <= FEED_LIMIT
            &&& after[0] == (tick, message)
            &&& forall|i: int| 0 < i < after.len() ==> after[i] == before[i - 1]
        }),
{
}

} // verus!
