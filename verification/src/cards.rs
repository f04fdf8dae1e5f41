use vstd::prelude::*;
use crate::display::{get_village_thumbnail, sort_by_points, sorted_by_points, thumbnail_tier, thumbnail_url};
use crate::models::{
    found, first_match, matching, members_listed, tribe_named, walk_of, Player, TribalWars, Tribe, Village,
};
use crate::coords::{lemma_pair_roundtrip, parsed_pair};
use crate::text::{decimal, lemma_decimal_digits, lemma_parse_decimal, parsed_u32, push_decimal};

verus! {

/// What the bot shows of a village.
pub struct VillageCard {
    /// `name (x|y)`
    pub title: String,
    /// The owner's name, or `Barbarian`.
    pub owner: String,
    /// `<points>p.`
    pub points: String,
    /// The owner's tribe name, or `None`.
    pub tribe: String,
    /// The village's page in the game.
    pub url: String,
    /// The map picture of the village.
    pub thumbnail: &'static str,
}

/// What the bot shows of a tribe.
pub struct TribeCard {
    /// `name [tag] - <points>p.`
    pub title: String,
    /// The number of members.
    pub members: String,
    /// The average points of a member (all points over members); `None` for
    /// a tribe without members, where the division is undefined.
    pub average: Option<String>,
    /// The tribe's page in the game.
    pub url: String,
}

pub open spec fn village_title_text(v: Village) -> Seq<char> {
    v.name@ + " ("@ + decimal(v.x as nat) + "|"@ + decimal(v.y as nat) + ")"@
}

pub open spec fn village_url_text(v: Village) -> Seq<char> {
    "https://en125.tribalwars.net/game.php?screen=info_village&id="@ + decimal(v.id as nat)
}

pub open spec fn points_text(points: u32) -> Seq<char> {
    decimal(points as nat) + "p."@
}

/// Owner and tribe shown for village `v`: the owner's name and the owner's
/// tribe's name where the data holds them, `Barbarian` and `None` where not.
pub open spec fn owner_shown(card: VillageCard, v: Village, players: Map<u32, Player>, tribes: Map<u32, Tribe>) -> bool {
    ||| exists|p: Player|
        #![trigger players.values().contains(p)]
        players.values().contains(p) && p.id == v.player_id && card.owner@ == p.name@ && (
        (exists|t: Tribe|
            #![trigger tribes.values().contains(t)]
            tribes.values().contains(t) && t.id == p.tribe_id && card.tribe@ == t.name@) || (
        (forall|t: Tribe| #[trigger] tribes.values().contains(t) ==> t.id != p.tribe_id)
            && card.tribe@ == "None"@))
    ||| (forall|p: Player| #[trigger] players.values().contains(p) ==> p.id != v.player_id)
        && card.owner@ == "Barbarian"@ && card.tribe@ == "None"@
}

/// `card` shows village `v` of the world data.
pub open spec fn village_card_of(card: VillageCard, v: Village, players: Map<u32, Player>, tribes: Map<u32, Tribe>) -> bool {
    &&& card.title@ == village_title_text(v)
    &&& card.points@ == points_text(v.rank)
    &&& card.url@ == village_url_text(v)
    &&& card.thumbnail@ == thumbnail_url(thumbnail_tier(v.rank))
    &&& owner_shown(card, v, players, tribes)
}

/// `card` shows village `v`, owned by `owner` (none: a barbarian village)
/// whose tribe is `tribe` (none: no tribe).
pub open spec fn village_card_shows(card: VillageCard, v: Village, owner: Option<Player>, tribe: Option<Tribe>) -> bool {
    &&& card.title@ == village_title_text(v)
    &&& card.points@ == points_text(v.rank)
    &&& card.url@ == village_url_text(v)
    &&& card.thumbnail@ == thumbnail_url(thumbnail_tier(v.rank))
    &&& card.owner@ == match owner {
        Some(p) => p.name@,
        None => "Barbarian"@,
    }
    &&& card.tribe@ == match tribe {
        Some(t) => t.name@,
        None => "None"@,
    }
}

pub open spec fn tribe_title_text(t: Tribe) -> Seq<char> {
    t.name@ + " ["@ + t.tag@ + "] - "@ + points_text(t.points)
}

pub open spec fn tribe_url_text(t: Tribe) -> Seq<char> {
    "https://en125.tribalwars.net/game.php?screen=info_ally&id="@ + decimal(t.id as nat)
}

/// `card` shows tribe `t`.
pub open spec fn tribe_card_of(card: TribeCard, t: Tribe) -> bool {
    &&& card.title@ == tribe_title_text(t)
    &&& card.members@ == decimal(t.members as nat)
    &&& card.url@ == tribe_url_text(t)
    &&& match card.average {
        Some(a) => t.members > 0 && a@ == decimal((t.all_points / t.members) as nat),
        None => t.members == 0,
    }
}

/// The line of the member list for player `p`.
pub open spec fn member_line(p: Player) -> Seq<char> {
    "**"@ + p.name@ + "**: "@ + decimal(p.villages as nat) + " villages, "@ + points_text(p.points)
        + "\n"@
}

/// The lines of the member list for the players `s`, in order.
pub open spec fn member_lines(s: Seq<&Player>) -> Seq<char>
    decreases s.len(),
{
    if s.len() == 0 {
        Seq::empty()
    } else {
        member_lines(s.drop_last()) + member_line(*s.last())
    }
}

/// The label of the village menu entry for `v`: `name - x|y - <points>p.`
pub open spec fn option_label_text(v: Village) -> Seq<char> {
    v.name@ + " - "@ + decimal(v.x as nat) + "|"@ + decimal(v.y as nat) + " - "@ + points_text(v.rank)
}

/// A points text is the number in decimal followed by `p.`, and the number
/// reads back.
proof fn lemma_points_text_reads_back(points: u32)
    ensures
        ({
            let p = points_text(points);
            &&& p.len() > 2
            &&& p.subrange(p.len() - 2, p.len() as int) == "p."@
            &&& parsed_u32(p.subrange(0, p.len() - 2)) == Some(points)
        }),
{
    reveal_strlit("p.");
    lemma_parse_decimal(points);
    let d = decimal(points as nat);
    let p = points_text(points);
    assert(d.len() > 0) by {
        lemma_decimal_digits(points as nat);
    }
    assert(p.subrange(0, p.len() - 2) =~= d);
    assert(p.subrange(p.len() - 2, p.len() as int) =~= "p."@);
}

/// A game link is `prefix` followed by a number in decimal, and the number
/// reads back from what follows the prefix.
proof fn lemma_link_reads_back(prefix: Seq<char>, id: u32)
    ensures
        ({
            let u = prefix + decimal(id as nat);
            &&& u.len() > prefix.len()
            &&& u.subrange(0, prefix.len() as int) == prefix
            &&& parsed_u32(u.subrange(prefix.len() as int, u.len() as int)) == Some(id)
        }),
{
    lemma_parse_decimal(id);
    lemma_decimal_digits(id as nat);
    let u = prefix + decimal(id as nat);
    assert(u.subrange(0, prefix.len() as int) =~= prefix);
    assert(u.subrange(prefix.len() as int, u.len() as int) =~= decimal(id as nat));
}

/// The card shown for a village `v` is titled with the village's name, then
/// ` (`, then its coordinates with x first, `|` and y, then `)`: the part
/// between the brackets reads back as `(v.x, v.y)`, in that order. Its
/// points read back as the village's points, followed by `p.`, and its link
/// is the village page of the game followed by the village's id.
pub proof fn lemma_village_card_reads_back(
    card: VillageCard,
    v: Village,
    owner: Option<Player>,
    tribe: Option<Tribe>,
)
    requires
        village_card_shows(card, v, owner, tribe),
    ensures
        ({
            let t = card.title@;
            let head = v.name@ + " ("@;
            &&& t.len() > head.len() + 1
            &&& t.subrange(0, head.len() as int) == head
            &&& t.last() == ')'
            &&& parsed_pair(t.subrange(head.len() as int, t.len() - 1), '|') == Some((v.x, v.y))
        }),
        ({
            let p = card.points@;
            &&& p.len() > 2
            &&& p.subrange(p.len() - 2, p.len() as int) == "p."@
            &&& parsed_u32(p.subrange(0, p.len() - 2)) == Some(v.rank)
        }),
        ({
            let u = card.url@;
            let page = "https://en125.tribalwars.net/game.php?screen=info_village&id="@;
            &&& u.len() > page.len()
            &&& u.subrange(0, page.len() as int) == page
            &&& parsed_u32(u.subrange(page.len() as int, u.len() as int)) == Some(v.id)
        }),
{
    reveal_strlit(" (");
    reveal_strlit("|");
    reveal_strlit(")");
    let head = v.name@ + " ("@;
    let a = decimal(v.x as nat);
    let b = decimal(v.y as nat);
    let t = card.title@;
    lemma_decimal_digits(v.x as nat);
    assert(t =~= head + (a.push('|') + b) + seq![')']);
    assert(t.subrange(0, head.len() as int) =~= head);
    assert(t.subrange(head.len() as int, t.len() - 1) =~= a.push('|') + b);
    lemma_pair_roundtrip(v.x, v.y, '|');
    lemma_points_text_reads_back(v.rank);
    lemma_link_reads_back("https://en125.tribalwars.net/game.php?screen=info_village&id="@, v.id);
}

/// The card shown for a tribe `t` links to the tribe page of the game
/// followed by the tribe's id (not any other of its numbers); its member
/// count reads back as `t.members`; its average reads back as all points
/// over members, and is absent exactly for a tribe without members; its
/// title is the name, ` [`, the tag, `] - `, then the points followed by
/// `p.`.
pub proof fn lemma_tribe_card_reads_back(card: TribeCard, t: Tribe)
    requires
        tribe_card_of(card, t),
    ensures
        ({
            let u = card.url@;
            let page = "https://en125.tribalwars.net/game.php?screen=info_ally&id="@;
            &&& u.len() > page.len()
            &&& u.subrange(0, page.len() as int) == page
            &&& parsed_u32(u.subrange(page.len() as int, u.len() as int)) == Some(t.id)
        }),
        parsed_u32(card.members@) == Some(t.members),
        match card.average {
            Some(a) => t.members > 0 && parsed_u32(a@) == Some(t.all_points / t.members),
            None => t.members == 0,
        },
        ({
            let title = card.title@;
            let head = t.name@ + " ["@ + t.tag@ + "] - "@;
            let rest = title.subrange(head.len() as int, title.len() as int);
            &&& title.len() > head.len() + 2
            &&& title.subrange(0, head.len() as int) == head
            &&& rest.subrange(rest.len() - 2, rest.len() as int) == "p."@
            &&& parsed_u32(rest.subrange(0, rest.len() - 2)) == Some(t.points)
        }),
{
    lemma_link_reads_back("https://en125.tribalwars.net/game.php?screen=info_ally&id="@, t.id);
    lemma_parse_decimal(t.members);
    if t.members > 0 {
        lemma_parse_decimal(t.all_points / t.members);
    }
    lemma_points_text_reads_back(t.points);
    let title = card.title@;
    let head = t.name@ + " ["@ + t.tag@ + "] - "@;
    assert(title =~= head + points_text(t.points));
    assert(title.subrange(0, head.len() as int) =~= head);
    assert(title.subrange(head.len() as int, title.len() as int) =~= points_text(t.points));
}

fn points_string(points: u32) -> (r: String)
    ensures
        r@ == points_text(points),
{
    let mut r = String::new();
    push_decimal(&mut r, points as u64);
    r.append("p.");
    r
}

/// The label of the village menu entry for `v`.
pub fn village_option_label(v: &Village) -> (r: String)
    ensures
        r@ == option_label_text(*v),
{
    let mut r = String::new();
    r.append(v.name.as_str());
    r.append(" - ");
    push_decimal(&mut r, v.x as u64);
    r.append("|");
    push_decimal(&mut r, v.y as u64);
    r.append(" - ");
    r.append(points_string(v.rank).as_str());
    r
}

/// The heading of the village menu for the player named `name`.
pub fn villages_heading(name: &str) -> (r: String)
    ensures
        r@ == "Villages for "@ + name@,
{
    let mut r = String::new();
    r.append("Villages for ");
    r.append(name);
    r
}

impl TribalWars {
    /// What to show of a village at `x|y` (one chosen as by `village_at`),
    /// its owner and the owner's tribe; `None` when no village stands there.
    pub fn village_card(&self, x: u32, y: u32) -> (r: Option<VillageCard>)
        ensures
            match first_match(walk_of(&self.villages), |v: Village| v.x == x && v.y == y) {
                None => r is None,
                Some(v) => {
                    let owner = first_match(walk_of(&self.players), |p: Player| p.id == v.player_id);
                    let tribe = match owner {
                        Some(p) => first_match(walk_of(&self.tribes), |t: Tribe| t.id == p.tribe_id),
                        None => None,
                    };
                    r matches Some(card) && village_card_shows(card, v, owner, tribe)
                },
            },
            r is None <==> forall|v: Village| #[trigger] self.villages@.values().contains(v) ==> !(v.x == x && v.y == y),
            r matches Some(card) ==> exists|v: Village|
                #[trigger] self.villages@.values().contains(v) && v.x == x && v.y == y
                    && village_card_of(card, v, self.players@, self.tribes@),
    {
        let village = match self.village_at(&x, &y) {
            None => {
                return None;
            },
            Some(v) => v,
        };
        let mut title = String::new();
        title.append(village.name.as_str());
        title.append(" (");
        push_decimal(&mut title, village.x as u64);
        title.append("|");
        push_decimal(&mut title, village.y as u64);
        title.append(")");
        let mut url = String::new();
        url.append("https://en125.tribalwars.net/game.php?screen=info_village&id=");
        push_decimal(&mut url, village.id as u64);
        let player = self.player(village.player_id);
        let (owner, tribe) = match player {
            Some(p) => {
                let tribe = match self.tribe(p.tribe_id) {
                    Some(t) => t.name.clone(),
                    None => String::from_str("None"),
                };
                (p.name.clone(), tribe)
            },
            None => (String::from_str("Barbarian"), String::from_str("None")),
        };
        let card = VillageCard {
            title,
            owner,
            points: points_string(village.rank),
            tribe,
            url,
            thumbnail: get_village_thumbnail(village.rank, false),
        };
        assert(village_card_of(card, *village, self.players@, self.tribes@));
        assert(village_card_shows(card, *village, found(player), match player {
            Some(p) => first_match(walk_of(&self.tribes), |t: Tribe| t.id == p.tribe_id),
            None => None,
        }));
        Some(card)
    }

    /// What to show of a tribe whose name or tag is `name` (one chosen as by
    /// `tribe_by_name`); `None` when no tribe answers to `name`.
    pub fn tribe_card(&self, name: &str) -> (r: Option<TribeCard>)
        ensures
            match first_match(walk_of(&self.tribes), |t: Tribe| tribe_named(t, name@)) {
                None => r is None,
                Some(t) => r matches Some(card) && tribe_card_of(card, t),
            },
            r is None <==> forall|t: Tribe| #[trigger] self.tribes@.values().contains(t) ==> !tribe_named(t, name@),
            r matches Some(card) ==> exists|t: Tribe|
                #[trigger] self.tribes@.values().contains(t) && tribe_named(t, name@) && tribe_card_of(card, t),
    {
        let tribe = match self.tribe_by_name(name) {
            None => {
                return None;
            },
            Some(t) => t,
        };
        let mut title = String::new();
        title.append(tribe.name.as_str());
        title.append(" [");
        title.append(tribe.tag.as_str());
        title.append("] - ");
        title.append(points_string(tribe.points).as_str());
        let mut members = String::new();
        push_decimal(&mut members, tribe.members as u64);
        let average = if tribe.members > 0 {
            let mut a = String::new();
            push_decimal(&mut a, (tribe.all_points / tribe.members) as u64);
            Some(a)
        } else {
            None
        };
        let mut url = String::new();
        url.append("https://en125.tribalwars.net/game.php?screen=info_ally&id=");
        push_decimal(&mut url, tribe.id as u64);
        let card = TribeCard { title, members, average, url };
        assert(tribe_card_of(card, *tribe));
        Some(card)
    }

    /// The member list of a tribe whose name or tag is `name` (one chosen as
    /// by `tribe_by_name`): `Players in <name>:` and one line per member,
    /// most points first; `None` when no tribe answers to `name`.
    pub fn tribe_members_text(&self, name: &str) -> (r: Option<String>)
        ensures
            match first_match(walk_of(&self.tribes), |t: Tribe| tribe_named(t, name@)) {
                None => r is None,
                Some(t) => r matches Some(text) && exists|found: Seq<&Player>, sorted: Seq<&Player>|
                    #[trigger] sorted_by_points(sorted, found) && found.unref() == matching(
                        walk_of(&self.players),
                        |p: Player| p.tribe_id == t.id,
                    ) && text@ == "Players in "@ + t.name@ + ":\n"@ + member_lines(sorted),
            },
            r is None <==> forall|t: Tribe| #[trigger] self.tribes@.values().contains(t) ==> !tribe_named(t, name@),
            r matches Some(text) ==> exists|t: Tribe, found: Seq<&Player>, sorted: Seq<&Player>|
                #[trigger] self.tribes@.values().contains(t) && tribe_named(t, name@)
                    && #[trigger] members_listed(found, self.players@, t.id)
                    && #[trigger] sorted_by_points(sorted, found)
                    && text@ == "Players in "@ + t.name@ + ":\n"@ + member_lines(sorted),
    {
        let tribe = match self.tribe_by_name(name) {
            None => {
                return None;
            },
            Some(t) => t,
        };
        let found = self.members_of(tribe.id);
        let ghost found_view = found@;
        let mut players = found;
        sort_by_points(&mut players);
        let mut text = String::new();
        text.append("Players in ");
        text.append(tribe.name.as_str());
        text.append(":\n");
        let ghost head = text@;
        let mut i: usize = 0;
        while i < players.len()
            invariant
                i <= players.len(),
                text@ == head + member_lines(players@.take(i as int)),
            decreases players.len() - i,
        {
            let p = players[i];
            text.append("**");
            text.append(p.name.as_str());
            text.append("**: ");
            push_decimal(&mut text, p.villages as u64);
            text.append(" villages, ");
            text.append(points_string(p.points).as_str());
            text.append("\n");
            assert(players@.take(i + 1).drop_last() == players@.take(i as int));
            assert(text@ =~= head + member_lines(players@.take(i + 1)));
            i = i + 1;
        }
        assert(players@.take(players.len() as int) == players@);
        assert(members_listed(found_view, self.players@, tribe.id));
        assert(sorted_by_points(players@, found_view));
        Some(text)
    }
}

}
