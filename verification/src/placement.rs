//! Which rooms a sequence of random draws places: the model that room
//! placement is verified against.
//!
//! Placement reads its draws four at a time. Each four describe one
//! candidate room: its corner `(x, y)`, its width and its height. A candidate
//! joins the rooms if it overlaps none of those already there.
use vstd::prelude::*;
use crate::geometry::Rect;
use crate::random::{
    drawn_since, lemma_served_one, lemma_served_records, lemma_served_then, served,
    RandomSource, Request,
};

verus! {

/// Candidate corners are drawn from 1 up to, but not including, the grid's
/// dimension less this margin.
pub const ROOM_MARGIN: i32 = 10;

/// The least width and height of a candidate.
pub const MIN_ROOM_SIZE: i32 = 2;

/// The bound, not itself reached, on the width and height of a candidate.
pub const ROOM_SIZE_LIMIT: i32 = 10;

/// The four ranges asked for one candidate on a `width` by `height` grid:
/// for its corner's x and y, its width and its height.
pub open spec fn candidate_requests(width: i32, height: i32) -> Seq<Request> {
    seq![
        (1i32, (width - ROOM_MARGIN) as i32),
        (1i32, (height - ROOM_MARGIN) as i32),
        (MIN_ROOM_SIZE, ROOM_SIZE_LIMIT),
        (MIN_ROOM_SIZE, ROOM_SIZE_LIMIT),
    ]
}

/// The ranges asked for `attempts` candidates in a row.
pub open spec fn room_requests(width: i32, height: i32, attempts: nat) -> Seq<Request> {
    Seq::new(4 * attempts, |i: int| candidate_requests(width, height)[i % 4])
}

/// The candidate room described by the four draws from position `at` on.
pub open spec fn candidate_at(draws: Seq<i32>, at: int) -> Rect {
    Rect {
        x1: draws[at],
        y1: draws[at + 1],
        x2: (draws[at] + draws[at + 2]) as i32,
        y2: (draws[at + 1] + draws[at + 3]) as i32,
    }
}

/// The four draws from position `at` on lie in the ranges that placement on
/// a `width` by `height` grid asks for.
pub open spec fn candidate_in_range(draws: Seq<i32>, at: int, width: int, height: int) -> bool {
    &&& 1 <= draws[at] < width - ROOM_MARGIN
    &&& 1 <= draws[at + 1] < height - ROOM_MARGIN
    &&& MIN_ROOM_SIZE <= draws[at + 2] < ROOM_SIZE_LIMIT
    &&& MIN_ROOM_SIZE <= draws[at + 3] < ROOM_SIZE_LIMIT
}

/// Each of the first `attempts` candidates in `draws` lies in range.
pub open spec fn candidates_in_range(
    draws: Seq<i32>,
    attempts: int,
    width: int,
    height: int,
) -> bool {
    forall|j: int|
        0 <= j < attempts ==> #[trigger] candidate_in_range(draws, 4 * j, width, height)
}

/// The room keeps a margin of one tile to the grid's edge and is at least
/// two tiles wide and high.
pub open spec fn within_margin(room: Rect, width: int, height: int) -> bool {
    &&& 1 <= room.x1
    &&& room.x1 + MIN_ROOM_SIZE <= room.x2 <= width - 2
    &&& 1 <= room.y1
    &&& room.y1 + MIN_ROOM_SIZE <= room.y2 <= height - 2
}

/// Whether `room` overlaps one of `rooms`.
pub open spec fn overlaps_any(rooms: Seq<Rect>, room: Rect) -> bool {
    exists|i: int| 0 <= i < rooms.len() && (#[trigger] rooms[i]).overlaps(room)
}

/// No two of `rooms` overlap.
pub open spec fn pairwise_disjoint(rooms: Seq<Rect>) -> bool {
    forall|i: int, j: int|
        0 <= i < rooms.len() && 0 <= j < rooms.len() && i != j ==> !(#[trigger] rooms[i]).overlaps(
            #[trigger] rooms[j],
        )
}

/// The rooms held once the first `attempts` candidates in `draws` have been
/// tried, in order, on top of the rooms `init`.
pub open spec fn placed(init: Seq<Rect>, draws: Seq<i32>, attempts: nat) -> Seq<Rect>
    decreases attempts,
{
    if attempts == 0 {
        init
    } else {
        let before = placed(init, draws, (attempts - 1) as nat);
        let room = candidate_at(draws, 4 * (attempts - 1));
        if overlaps_any(before, room) {
            before
        } else {
            before.push(room)
        }
    }
}

/// How a run of placement that wants `wanted` rooms and may try at most
/// `budget` candidates comes to stop after `attempts` of them: rooms were
/// missing before each attempt, and after the last the rooms are complete
/// or the budget is used up.
pub open spec fn placement_run(
    init: Seq<Rect>,
    draws: Seq<i32>,
    attempts: nat,
    wanted: nat,
    budget: nat,
) -> bool {
    &&& attempts <= budget
    &&& forall|j: nat| j < attempts ==> (#[trigger] placed(init, draws, j)).len() < wanted
    &&& attempts == budget || placed(init, draws, attempts).len() >= wanted
}

/// A candidate in range keeps the margin on a grid with room for one.
pub proof fn lemma_candidate_within_margin(draws: Seq<i32>, at: int, width: int, height: int)
    requires
        candidate_in_range(draws, at, width, height),
        width <= i32::MAX,
        height <= i32::MAX,
    ensures
        within_margin(candidate_at(draws, at), width, height),
{
}

/// What is placed depends only on the draws that the attempts read.
pub proof fn lemma_placed_agrees(init: Seq<Rect>, a: Seq<i32>, b: Seq<i32>, attempts: nat)
    requires
        forall|i: int| 0 <= i < 4 * attempts ==> a[i] == b[i],
    ensures
        placed(init, a, attempts) == placed(init, b, attempts),
    decreases attempts,
{
    if attempts > 0 {
        lemma_placed_agrees(init, a, b, (attempts - 1) as nat);
    }
}

/// Rooms, once placed, stay: further attempts only append.
pub proof fn lemma_placed_grows(init: Seq<Rect>, draws: Seq<i32>, earlier: nat, later: nat)
    requires
        earlier <= later,
    ensures
        placed(init, draws, earlier).is_prefix_of(placed(init, draws, later)),
        placed(init, draws, later).len() <= placed(init, draws, earlier).len() + (later - earlier),
    decreases later,
{
    if earlier < later {
        lemma_placed_grows(init, draws, earlier, (later - 1) as nat);
    }
}

/// Placement keeps rooms apart: if no two of the rooms it starts from
/// overlap, no two of the rooms it ends with do.
pub proof fn lemma_placed_disjoint(init: Seq<Rect>, draws: Seq<i32>, attempts: nat)
    requires
        pairwise_disjoint(init),
    ensures
        pairwise_disjoint(placed(init, draws, attempts)),
    decreases attempts,
{
    if attempts > 0 {
        lemma_placed_disjoint(init, draws, (attempts - 1) as nat);
    }
}

/// Every room that placement adds is one of the candidates it tried.
pub proof fn lemma_placed_from_candidates(
    init: Seq<Rect>,
    draws: Seq<i32>,
    attempts: nat,
    i: int,
) -> (j: int)
    requires
        init.len() <= i < placed(init, draws, attempts).len(),
    ensures
        0 <= j < attempts,
        placed(init, draws, attempts)[i] == candidate_at(draws, 4 * j),
    decreases attempts,
{
    let before = placed(init, draws, (attempts - 1) as nat);
    if i < before.len() {
        lemma_placed_from_candidates(init, draws, (attempts - 1) as nat, i)
    } else {
        attempts - 1
    }
}

/// Draws a candidate room for a `width` by `height` grid: its corner's x
/// and y, its width and its height, in this order.
pub fn draw_candidate<R: RandomSource>(rng: &mut R, width: i32, height: i32) -> (room: Rect)
    requires
        width > ROOM_MARGIN + 1,
        height > ROOM_MARGIN + 1,
    ensures
        final(rng).asked() == old(rng).asked() + candidate_requests(width, height),
        final(rng).drawn() == old(rng).drawn() + drawn_since(old(rng).drawn(), final(rng).drawn()),
        served(*old(rng), *final(rng), candidate_requests(width, height)),
        drawn_since(old(rng).drawn(), final(rng).drawn()).len() == 4,
        candidate_in_range(
            drawn_since(old(rng).drawn(), final(rng).drawn()),
            0,
            width as int,
            height as int,
        ),
        room == candidate_at(drawn_since(old(rng).drawn(), final(rng).drawn()), 0),
{
    let ghost start = *rng;
    let x: i32 = rng.range(1, width - ROOM_MARGIN);
    let ghost after_x = *rng;
    let y: i32 = rng.range(1, height - ROOM_MARGIN);
    let ghost after_y = *rng;
    let w: i32 = rng.range(MIN_ROOM_SIZE, ROOM_SIZE_LIMIT);
    let ghost after_w = *rng;
    let h: i32 = rng.range(MIN_ROOM_SIZE, ROOM_SIZE_LIMIT);
    proof {
        let asked = candidate_requests(width, height);
        lemma_served_one(start, after_x, asked[0], x);
        lemma_served_one(after_x, after_y, asked[1], y);
        lemma_served_one(after_y, after_w, asked[2], w);
        lemma_served_one(after_w, *rng, asked[3], h);
        let two = seq![asked[0]] + seq![asked[1]];
        let three = two + seq![asked[2]];
        lemma_served_then(start, after_x, after_y, seq![asked[0]], seq![asked[1]]);
        lemma_served_then(start, after_y, after_w, two, seq![asked[2]]);
        lemma_served_then(start, after_w, *rng, three, seq![asked[3]]);
        assert(three + seq![asked[3]] =~= asked);
        assert(drawn_since(start.drawn(), rng.drawn()) =~= seq![x, y, w, h]);
        lemma_served_records(start, *rng, asked);
    }
    Rect::with_size(x, y, w, h)
}

} // verus!
