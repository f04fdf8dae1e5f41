use vstd::prelude::*;
use crate::models::Player;
use crate::text::{
    all_digits, decimal, decimal_two, digits_value, lemma_decimal_digits, lemma_decimal_no_leading_zero,
    lemma_decimal_two, push_char, push_decimal, push_decimal_two,
};

verus! {

/// The picture tier of a village with `points` points: 1 below 300, 2 below
/// 1000, 3 below 3000, 4 below 9000, 5 below 11000, 6 up to 99999, and 1
/// again above that.
pub open spec fn thumbnail_tier(points: u32) -> int {
    if points <= 299 {
        1
    } else if points <= 999 {
        2
    } else if points <= 2999 {
        3
    } else if points <= 8999 {
        4
    } else if points <= 10999 {
        5
    } else if points <= 99999 {
        6
    } else {
        1
    }
}

/// The address of the village picture of each tier.
pub open spec fn thumbnail_url(tier: int) -> Seq<char> {
    if tier == 2 {
        "https://dsen.innogamescdn.com/asset/6f4647d7/graphic///map_new/v2.png"@
    } else if tier == 3 {
        "https://dsen.innogamescdn.com/asset/6f4647d7/graphic///map_new/v3.png"@
    } else if tier == 4 {
        "https://dsen.innogamescdn.com/asset/6f4647d7/graphic///map_new/v4.png"@
    } else if tier == 5 {
        "https://dsen.innogamescdn.com/asset/6f4647d7/graphic///map_new/v5.png"@
    } else if tier == 6 {
        "https://dsen.innogamescdn.com/asset/6f4647d7/graphic///map_new/v6.png"@
    } else {
        "https://dsen.innogamescdn.com/asset/6f4647d7/graphic///map_new/v1.png"@
    }
}

/// The map picture for a village with `village_points` points.
pub fn get_village_thumbnail(village_points: u32, _barb: bool) -> (r: &'static str)
    ensures
        r@ == thumbnail_url(thumbnail_tier(village_points)),
{
    if village_points <= 299 {
        "https://dsen.innogamescdn.com/asset/6f4647d7/graphic///map_new/v1.png"
    } else if village_points <= 999 {
        "https://dsen.innogamescdn.com/asset/6f4647d7/graphic///map_new/v2.png"
    } else if village_points <= 2999 {
        "https://dsen.innogamescdn.com/asset/6f4647d7/graphic///map_new/v3.png"
    } else if village_points <= 8999 {
        "https://dsen.innogamescdn.com/asset/6f4647d7/graphic///map_new/v4.png"
    } else if village_points <= 10999 {
        "https://dsen.innogamescdn.com/asset/6f4647d7/graphic///map_new/v5.png"
    } else if village_points <= 99999 {
        "https://dsen.innogamescdn.com/asset/6f4647d7/graphic///map_new/v6.png"
    } else {
        "https://dsen.innogamescdn.com/asset/6f4647d7/graphic///map_new/v1.png"
    }
}

/// Up to 99999 points, a village with more points never gets a lower tier.
pub proof fn lemma_thumbnail_tier_monotone(a: u32, b: u32)
    requires
        a <= b <= 99999,
    ensures
        thumbnail_tier(a) <= thumbnail_tier(b),
{
}

/// Hours, minutes and seconds of a span of `secs` seconds.
pub open spec fn clock_hours(secs: nat) -> nat {
    secs / 3600
}

pub open spec fn clock_minutes(secs: nat) -> nat {
    (secs % 3600) / 60
}

pub open spec fn clock_seconds(secs: nat) -> nat {
    secs % 60
}

/// A travel time as the game shows it: `H:MM:SS`.
pub open spec fn clock_text(secs: nat) -> Seq<char> {
    decimal(clock_hours(secs)).push(':') + decimal_two(clock_minutes(secs)).push(':') + decimal_two(
        clock_seconds(secs),
    )
}

/// Hours, minutes and seconds make up the span again, minutes and seconds
/// staying below sixty.
pub proof fn lemma_clock_parts(secs: nat)
    ensures
        clock_hours(secs) * 3600 + clock_minutes(secs) * 60 + clock_seconds(secs) == secs,
        clock_minutes(secs) < 60,
        clock_seconds(secs) < 60,
{
    assert(secs % 3600 == clock_minutes(secs) * 60 + secs % 60) by (nonlinear_arith);
}

/// The `H:MM:SS` text of a span reads back as the span: the last two
/// characters are the seconds and the two before the second-last colon
/// the minutes, each exactly two digits below sixty; everything before that
/// colon is the hours, digits without a leading zero; and hours times 3600
/// plus minutes times 60 plus seconds is the span.
pub proof fn lemma_clock_text_reads_back(secs: nat)
    ensures
        ({
            let t = clock_text(secs);
            let k = t.len() as int;
            let hours = t.subrange(0, k - 6);
            let minutes = t.subrange(k - 5, k - 3);
            let seconds = t.subrange(k - 2, k);
            &&& k >= 7
            &&& t[k - 6] == ':'
            &&& t[k - 3] == ':'
            &&& all_digits(hours)
            &&& hours.len() == 1 || hours[0] != '0'
            &&& all_digits(minutes)
            &&& all_digits(seconds)
            &&& digits_value(minutes) < 60
            &&& digits_value(seconds) < 60
            &&& digits_value(hours) * 3600 + digits_value(minutes) * 60 + digits_value(seconds) == secs
        }),
{
    lemma_clock_parts(secs);
    let h = decimal(clock_hours(secs));
    let m = decimal_two(clock_minutes(secs));
    let s = decimal_two(clock_seconds(secs));
    lemma_decimal_digits(clock_hours(secs));
    lemma_decimal_no_leading_zero(clock_hours(secs));
    lemma_decimal_two(clock_minutes(secs));
    lemma_decimal_two(clock_seconds(secs));
    let t = clock_text(secs);
    let k = t.len() as int;
    assert(t == h.push(':') + m.push(':') + s);
    assert(k == h.len() + 6);
    assert(t.subrange(0, k - 6) =~= h);
    assert(t.subrange(k - 5, k - 3) =~= m);
    assert(t.subrange(k - 2, k) =~= s);
    assert(t[k - 6] == h.push(':')[h.len() as int]);
    assert(t[k - 3] == m.push(':')[2]);
}

/// Renders a travel time of `secs` whole seconds as `H:MM:SS`.
pub fn duration_to_tw_display(secs: u64) -> (r: String)
    ensures
        r@ == clock_text(secs as nat),
{
    let hours = secs / 3600;
    let minutes = (secs - (hours * 3600)) / 60;
    let seconds = secs - (hours * 3600) - (minutes * 60);
    assert(minutes == clock_minutes(secs as nat));
    assert(seconds == clock_seconds(secs as nat)) by (nonlinear_arith)
        requires
            hours == secs / 3600,
            minutes == (secs - hours * 3600) / 60,
            seconds == secs - hours * 3600 - minutes * 60,
    ;
    let mut r = String::new();
    push_decimal(&mut r, hours);
    push_char(&mut r, ':');
    push_decimal_two(&mut r, minutes);
    push_char(&mut r, ':');
    push_decimal_two(&mut r, seconds);
    r
}

/// `perm` is an ordering of the indices `0..n`: each index once.
pub open spec fn is_permutation(perm: Seq<int>, n: int) -> bool {
    &&& perm.len() == n
    &&& forall|i: int| 0 <= i < n ==> 0 <= #[trigger] perm[i] < n
    &&& forall|i: int, j: int| 0 <= i < j < n ==> perm[i] != perm[j]
}

/// `sorted` holds the players of `original`, most points first, players with
/// equal points in their original order (what a stable sort gives).
pub open spec fn sorted_by_points(sorted: Seq<&Player>, original: Seq<&Player>) -> bool {
    exists|perm: Seq<int>| sorts_as(perm, sorted, original)
}

/// `perm` tells where each player of `sorted` stood in `original`.
pub open spec fn sorts_as(perm: Seq<int>, sorted: Seq<&Player>, original: Seq<&Player>) -> bool {
    &&& sorted.len() == original.len()
    &&& is_permutation(perm, original.len() as int)
    &&& forall|i: int| 0 <= i < sorted.len() ==> #[trigger] sorted[i] == original[perm[i]]
    &&& forall|i: int, j: int|
        0 <= i < j < sorted.len() ==> (#[trigger] sorted[i]).points >= (#[trigger] sorted[j]).points
    &&& forall|i: int, j: int|
        0 <= i < j < sorted.len() && (#[trigger] sorted[i]).points == (#[trigger] sorted[j]).points
            ==> perm[i] < perm[j]
}

/// Sorts players by points, most first, keeping players with equal points in
/// their order (as `sort_by(|a, b| b.points.cmp(&a.points))` does).
pub fn sort_by_points(players: &mut Vec<&Player>)
    ensures
        sorted_by_points(final(players)@, old(players)@),
{
    let ghost original = players@;
    let n = players.len();
    let ghost mut perm: Seq<int> = Seq::new(n as nat, |i: int| i);
    let mut i: usize = 0;
    while i < n
        invariant
            n == players.len(),
            original.len() == n,
            i <= n,
            is_permutation(perm, n as int),
            forall|k: int| 0 <= k < n ==> #[trigger] players@[k] == original[perm[k]],
            forall|k: int| i <= k < n ==> #[trigger] perm[k] == k,
            forall|a: int, b: int|
                0 <= a < b < i ==> (#[trigger] players@[a]).points >= (#[trigger] players@[b]).points,
            forall|a: int, b: int|
                0 <= a < b < i && (#[trigger] players@[a]).points == (#[trigger] players@[b]).points
                    ==> perm[a] < perm[b],
            forall|a: int| 0 <= a < i ==> #[trigger] perm[a] < i,
        decreases n - i,
    {
        let mut j: usize = i;
        while j > 0 && players[j - 1].points < players[j].points
            invariant
                n == players.len(),
                original.len() == n,
                i < n,
                j <= i,
                is_permutation(perm, n as int),
                forall|k: int| 0 <= k < n ==> #[trigger] players@[k] == original[perm[k]],
                forall|k: int| i < k < n ==> #[trigger] perm[k] == k,
                perm[j as int] == i,
                forall|a: int| 0 <= a <= i && a != j ==> #[trigger] perm[a] < i,
                // the part before j and the part after j are each sorted and stable
                forall|a: int, b: int|
                    0 <= a < b <= i && a != j && b != j ==> (#[trigger] players@[a]).points
                        >= (#[trigger] players@[b]).points,
                forall|a: int, b: int|
                    0 <= a < b <= i && a != j && b != j && (#[trigger] players@[a]).points
                        == (#[trigger] players@[b]).points ==> perm[a] < perm[b],
                // the moving player has more points than every player it passed
                forall|b: int| j < b <= i ==> (#[trigger] players@[b]).points < players@[j as int].points,
            decreases j,
        {
            let moving = players[j];
            let left = players[j - 1];
            players.set(j - 1, moving);
            players.set(j, left);
            proof {
                let pj = perm[j as int];
                let pl = perm[j - 1];
                perm = perm.update(j - 1, pj).update(j as int, pl);
            }
            j = j - 1;
        }
        i = i + 1;
    }
    assert(sorts_as(perm, players@, original));
}

}
