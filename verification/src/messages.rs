use vstd::prelude::*;
use crate::coords::{coordinate_pattern, coordinates_read, first_coordinates, regex_captures, Coordinates};
use crate::text::{chars_of, contains_run, has_infix, pieces, split_on, split_ranges, text_of};

verus! {

/// The address prefix of a shared battle report.
pub open spec fn report_marker() -> Seq<char> {
    "https://en125.tribalwars.net/public_report/"@
}

/// The pieces, in order, that hold a report address.
pub open spec fn report_pieces(parts: Seq<Seq<char>>) -> Seq<Seq<char>>
    decreases parts.len(),
{
    if parts.len() == 0 {
        Seq::empty()
    } else {
        let r = report_pieces(parts.drop_last());
        if has_infix(parts.last(), report_marker()) {
            r.push(parts.last())
        } else {
            r
        }
    }
}

/// The texts of a list of strings.
pub open spec fn texts(v: Seq<String>) -> Seq<Seq<char>> {
    v.map_values(|s: String| s@)
}

/// The space-separated words of `content` that hold a report address, in order.
pub fn report_links(content: &str) -> (r: Vec<String>)
    ensures
        texts(r@) == report_pieces(split_on(content@, ' ')),
{
    let v = chars_of(content);
    let marker = chars_of("https://en125.tribalwars.net/public_report/");
    let ranges = split_ranges(&v, ' ');
    let ghost parts = split_on(v@, ' ');
    let mut links: Vec<String> = Vec::new();
    let mut k: usize = 0;
    while k < ranges.len()
        invariant
            v@ == content@,
            marker@ == report_marker(),
            pieces(v@, ranges@) == parts,
            parts == split_on(v@, ' '),
            forall|j: int| 0 <= j < ranges@.len() ==> (#[trigger] ranges@[j]).0 <= ranges@[j].1 <= v.len(),
            k <= ranges.len(),
            texts(links@) == report_pieces(parts.take(k as int)),
        decreases ranges.len() - k,
    {
        let (lo, hi) = ranges[k];
        let word = text_of(&v, lo, hi);
        let wv = chars_of(word.as_str());
        assert(parts[k as int] == v@.subrange(lo as int, hi as int));
        assert(parts.take(k + 1).drop_last() == parts.take(k as int));
        assert(parts.take(k + 1).last() == parts[k as int]);
        let ghost before = links@;
        if contains_run(&wv, &marker) {
            links.push(word);
            assert(texts(links@) =~= texts(before).push(parts[k as int]));
        }
        k = k + 1;
    }
    assert(parts.take(ranges.len() as int) == parts);
    links
}

/// What the bot does with a chat message.
pub enum MessageAction {
    /// Messages of bots are not answered.
    Ignore,
    /// Show the village at these coordinates (after refreshing the data).
    ShowVillage { x: u32, y: u32 },
    /// The leftmost coordinates hold digits that do not read as numbers.
    UnreadableCoordinates,
    /// Send a picture of each of these battle reports, in order.
    SendReports { links: Vec<String> },
}

/// Decides what to do with a chat message: nothing for a bot; the village at
/// the leftmost coordinates written in it (or an unreadable-coordinates
/// answer when they do not read as numbers); otherwise the reports it links.
pub fn message_action(from_bot: bool, content: &str) -> (r: MessageAction)
    ensures
        from_bot ==> r is Ignore,
        !from_bot ==> match coordinates_read(regex_captures(coordinate_pattern(), content@)) {
            Coordinates::Found { x, y } => r == (MessageAction::ShowVillage { x, y }),
            Coordinates::Unreadable => r is UnreadableCoordinates,
            Coordinates::Absent => r matches MessageAction::SendReports { links } && texts(links@)
                == report_pieces(split_on(content@, ' ')),
        },
{
    if from_bot {
        return MessageAction::Ignore;
    }
    match first_coordinates(content) {
        Coordinates::Found { x, y } => MessageAction::ShowVillage { x, y },
        Coordinates::Unreadable => MessageAction::UnreadableCoordinates,
        Coordinates::Absent => MessageAction::SendReports { links: report_links(content) },
    }
}

}
