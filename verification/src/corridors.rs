//! The order in which rooms are linked, and the tiles that the corridors
//! between them cover: the model that corridor carving is verified against.
//!
//! The rooms are put in a chain by ascending x coordinate of their centers,
//! rooms of equal x in the order they were placed. Each room of the chain is
//! linked to the one before it by an L-shaped corridor: one vertical and one
//! horizontal tunnel between the two centers. A draw decides which of the
//! two comes first.
use vstd::prelude::*;
use crate::geometry::{Point, Rect};
use crate::random::Request;

verus! {

/// Whether `(px, py)` lies on the vertical tunnel in column `x` between the
/// rows `y1` and `y2`, both included, in either order.
pub open spec fn on_vertical_tunnel(y1: int, y2: int, x: int, px: int, py: int) -> bool {
    px == x && (y1 <= py <= y2 || y2 <= py <= y1)
}

/// Whether `(px, py)` lies on the horizontal tunnel in row `y` between the
/// columns `x1` and `x2`, both included, in either order.
pub open spec fn on_horizontal_tunnel(x1: int, x2: int, y: int, px: int, py: int) -> bool {
    py == y && (x1 <= px <= x2 || x2 <= px <= x1)
}

/// Whether `(px, py)` lies on the corridor from `prev` to `cur`. Where
/// `flip` is 1 the corridor leaves `prev` vertically and reaches `cur`
/// horizontally; otherwise it leaves horizontally and arrives vertically.
pub open spec fn on_link(prev: Point, cur: Point, flip: i32, px: int, py: int) -> bool {
    if flip == 1 {
        ||| on_vertical_tunnel(prev.y as int, cur.y as int, prev.x as int, px, py)
        ||| on_horizontal_tunnel(prev.x as int, cur.x as int, cur.y as int, px, py)
    } else {
        ||| on_horizontal_tunnel(prev.x as int, cur.x as int, prev.y as int, px, py)
        ||| on_vertical_tunnel(prev.y as int, cur.y as int, cur.x as int, px, py)
    }
}

/// Whether `(px, py)` lies on the corridor that links room `i` of the chain
/// to room `i - 1`, the orientation taken from `flips[i - 1]`.
pub open spec fn on_nth_link(chain: Seq<Rect>, flips: Seq<i32>, i: int, px: int, py: int) -> bool {
    on_link(chain[i - 1].midpoint(), chain[i].midpoint(), flips[i - 1], px, py)
}

/// Whether `(px, py)` lies on one of the first `links` corridors of the
/// chain.
pub open spec fn on_corridors(
    chain: Seq<Rect>,
    flips: Seq<i32>,
    links: int,
    px: int,
    py: int,
) -> bool {
    exists|i: int| 1 <= i <= links && #[trigger] on_nth_link(chain, flips, i, px, py)
}

/// The range asked for the draw that decides a corridor's orientation.
pub open spec fn flip_request() -> Request {
    (0i32, 2i32)
}

/// The ranges asked for the corridors of `links` links.
pub open spec fn flip_requests(links: nat) -> Seq<Request> {
    Seq::new(links, |i: int| flip_request())
}

/// One more link adds the tiles of that link to the corridors, and nothing
/// else.
pub(crate) proof fn lemma_corridors_extend(
    chain: Seq<Rect>,
    flips: Seq<i32>,
    flip: i32,
    links: int,
    px: int,
    py: int,
)
    requires
        flips.len() == links - 1,
    ensures
        on_corridors(chain, flips.push(flip), links, px, py) <==> {
            ||| on_corridors(chain, flips, links - 1, px, py)
            ||| on_link(chain[links - 1].midpoint(), chain[links].midpoint(), flip, px, py)
        },
{
    let longer = flips.push(flip);
    if on_corridors(chain, flips, links - 1, px, py) {
        let i = choose|i: int| 1 <= i <= links - 1 && #[trigger] on_nth_link(chain, flips, i, px, py);
        assert(on_nth_link(chain, longer, i, px, py));
    }
    if on_link(chain[links - 1].midpoint(), chain[links].midpoint(), flip, px, py) {
        assert(on_nth_link(chain, longer, links, px, py));
    }
    if on_corridors(chain, longer, links, px, py) {
        let i = choose|i: int| 1 <= i <= links && #[trigger] on_nth_link(chain, longer, i, px, py);
        if i < links {
            assert(on_nth_link(chain, flips, i, px, py));
        }
    }
}

/// `chain` with `room` put behind the last room whose center is not to the
/// right of its own.
pub open spec fn insert_by_center(chain: Seq<Rect>, room: Rect) -> Seq<Rect>
    decreases chain.len(),
{
    if chain.len() == 0 {
        seq![room]
    } else if chain.last().midpoint().x <= room.midpoint().x {
        chain.push(room)
    } else {
        insert_by_center(chain.drop_last(), room).push(chain.last())
    }
}

/// The rooms in ascending order of the x coordinate of their centers, rooms
/// of equal x in the order they have in `rooms`.
pub open spec fn sorted_by_center(rooms: Seq<Rect>) -> Seq<Rect>
    decreases rooms.len(),
{
    if rooms.len() == 0 {
        rooms
    } else {
        insert_by_center(sorted_by_center(rooms.drop_last()), rooms.last())
    }
}

/// The centers of `chain` ascend in x.
pub open spec fn ascending_by_center(chain: Seq<Rect>) -> bool {
    forall|i: int, j: int|
        0 <= i <= j < chain.len() ==> (#[trigger] chain[i]).midpoint().x <= (
        #[trigger] chain[j]).midpoint().x
}

/// Where `at` is the position behind the last room whose center is not to
/// the right of `room`'s, inserting by center is inserting at `at`.
proof fn lemma_insert_position(chain: Seq<Rect>, room: Rect, at: int)
    requires
        0 <= at <= chain.len(),
        forall|j: int| at <= j < chain.len() ==> chain[j].midpoint().x > room.midpoint().x,
        at > 0 ==> chain[at - 1].midpoint().x <= room.midpoint().x,
    ensures
        insert_by_center(chain, room) == chain.insert(at, room),
    decreases chain.len(),
{
    if 0 < chain.len() && at < chain.len() {
        lemma_insert_position(chain.drop_last(), room, at);
    }
}

/// Inserting by center adds the room and nothing else, and keeps an
/// ascending chain ascending.
proof fn lemma_insert_by_center(chain: Seq<Rect>, room: Rect)
    ensures
        insert_by_center(chain, room).len() == chain.len() + 1,
        insert_by_center(chain, room).to_multiset() == chain.to_multiset().insert(room),
        ascending_by_center(chain) ==> ascending_by_center(insert_by_center(chain, room)),
    decreases chain.len(),
{
    broadcast use vstd::seq_lib::to_multiset_build;

    if chain.len() == 0 {
        assert(seq![room] =~= chain.push(room));
    } else if chain.last().midpoint().x > room.midpoint().x {
        let front = chain.drop_last();
        lemma_insert_by_center(front, room);
        lemma_members_of_insert(front, room);
        assert(chain =~= front.push(chain.last()));
    }
}

/// Every room of the chain after an insertion is the inserted room or was
/// in the chain before.
proof fn lemma_members_of_insert(chain: Seq<Rect>, room: Rect)
    ensures
        forall|i: int|
            0 <= i < insert_by_center(chain, room).len() ==> {
                ||| (#[trigger] insert_by_center(chain, room)[i]) == room
                ||| exists|k: int| 0 <= k < chain.len() && chain[k] == insert_by_center(chain, room)[i]
            },
    decreases chain.len(),
{
    if chain.len() > 0 && chain.last().midpoint().x > room.midpoint().x {
        let front = chain.drop_last();
        lemma_members_of_insert(front, room);
        lemma_insert_by_center(front, room);
    }
}

/// The chain holds exactly the rooms it was made from, each as often as it
/// occurs among them, and its centers ascend in x.
pub proof fn lemma_sorted_by_center(rooms: Seq<Rect>)
    ensures
        sorted_by_center(rooms).len() == rooms.len(),
        sorted_by_center(rooms).to_multiset() == rooms.to_multiset(),
        ascending_by_center(sorted_by_center(rooms)),
    decreases rooms.len(),
{
    broadcast use vstd::seq_lib::to_multiset_build;

    if rooms.len() > 0 {
        let front = rooms.drop_last();
        lemma_sorted_by_center(front);
        lemma_insert_by_center(sorted_by_center(front), rooms.last());
        assert(rooms =~= front.push(rooms.last()));
    }
}

/// The test for a room whose center has the x coordinate `x`.
pub open spec fn has_center_x(x: int) -> spec_fn(Rect) -> bool {
    |room: Rect| room.midpoint().x == x
}

/// Filtering a sequence with one more room at its end.
proof fn lemma_filter_push(rooms: Seq<Rect>, room: Rect, keep: spec_fn(Rect) -> bool)
    ensures
        rooms.push(room).filter(keep) == if keep(room) {
            rooms.filter(keep).push(room)
        } else {
            rooms.filter(keep)
        },
{
    reveal(Seq::filter);
    assert(rooms.push(room).drop_last() =~= rooms);
}

/// Inserting by center puts the room behind every room that shares the x
/// coordinate of its center.
proof fn lemma_insert_behind_equals(chain: Seq<Rect>, room: Rect, x: int)
    ensures
        insert_by_center(chain, room).filter(has_center_x(x)) == if room.midpoint().x == x {
            chain.filter(has_center_x(x)).push(room)
        } else {
            chain.filter(has_center_x(x))
        },
    decreases chain.len(),
{
    let keep = has_center_x(x);
    if chain.len() == 0 {
        assert(seq![room] =~= chain.push(room));
        lemma_filter_push(chain, room, keep);
    } else if chain.last().midpoint().x <= room.midpoint().x {
        lemma_filter_push(chain, room, keep);
    } else {
        let front = chain.drop_last();
        lemma_insert_behind_equals(front, room, x);
        lemma_filter_push(insert_by_center(front, room), chain.last(), keep);
        lemma_filter_push(front, chain.last(), keep);
        assert(chain =~= front.push(chain.last()));
    }
}

/// The chain keeps rooms whose centers share an x coordinate in the order
/// they have among the rooms it was made from.
pub proof fn lemma_sorted_is_stable(rooms: Seq<Rect>, x: int)
    ensures
        sorted_by_center(rooms).filter(has_center_x(x)) == rooms.filter(has_center_x(x)),
    decreases rooms.len(),
{
    if rooms.len() > 0 {
        let front = rooms.drop_last();
        lemma_sorted_is_stable(front, x);
        lemma_insert_behind_equals(sorted_by_center(front), rooms.last(), x);
        lemma_filter_push(front, rooms.last(), has_center_x(x));
        assert(rooms =~= front.push(rooms.last()));
    }
}

/// Every room of the chain is one of the rooms it was made from.
pub proof fn lemma_sorted_member(rooms: Seq<Rect>, i: int) -> (k: int)
    requires
        0 <= i < sorted_by_center(rooms).len(),
    ensures
        0 <= k < rooms.len(),
        rooms[k] == sorted_by_center(rooms)[i],
    decreases rooms.len(),
{
    let front = rooms.drop_last();
    lemma_members_of_insert(sorted_by_center(front), rooms.last());
    let room = sorted_by_center(rooms)[i];
    if room == rooms.last() {
        rooms.len() - 1
    } else {
        let m = choose|m: int|
            0 <= m < sorted_by_center(front).len() && sorted_by_center(front)[m] == room;
        lemma_sorted_member(front, m)
    }
}

/// Every room is a room of the chain made from the rooms.
pub proof fn lemma_room_in_chain(rooms: Seq<Rect>, k: int) -> (i: int)
    requires
        0 <= k < rooms.len(),
    ensures
        0 <= i < sorted_by_center(rooms).len(),
        sorted_by_center(rooms)[i] == rooms[k],
{
    let chain = sorted_by_center(rooms);
    lemma_sorted_by_center(rooms);
    rooms.to_multiset_ensures();
    chain.to_multiset_ensures();
    assert(chain.to_multiset().count(rooms[k]) > 0);
    choose|i: int| 0 <= i < chain.len() && chain[i] == rooms[k]
}

/// A copy of `rooms` in ascending order of the x coordinate of their
/// centers, rooms of equal x in the order they have in `rooms`.
pub fn sort_by_center(rooms: &Vec<Rect>) -> (chain: Vec<Rect>)
    ensures
        chain@ == sorted_by_center(rooms@),
{
    let mut chain: Vec<Rect> = Vec::new();
    let mut i: usize = 0;
    while i < rooms.len()
        invariant
            i <= rooms.len(),
            chain@ == sorted_by_center(rooms@.take(i as int)),
            chain@.len() == i,
        decreases rooms.len() - i,
    {
        let room = rooms[i];
        let key: i32 = room.center().x;
        let mut at: usize = chain.len();
        while at > 0 && chain[at - 1].center().x > key
            invariant
                at <= chain.len(),
                key == room.midpoint().x,
                forall|j: int| at <= j < chain@.len() ==> chain@[j].midpoint().x > key,
            decreases at,
        {
            at -= 1;
        }
        proof {
            lemma_insert_position(chain@, room, at as int);
            assert(rooms@.take(i + 1).drop_last() =~= rooms@.take(i as int));
        }
        chain.insert(at, room);
        i += 1;
    }
    assert(rooms@.take(rooms@.len() as int) =~= rooms@);
    chain
}

} // verus!
