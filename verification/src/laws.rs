//! What holds of every generated map, proved from the contract of
//! generation.
use vstd::prelude::*;
use crate::corridors::{
    lemma_room_in_chain, lemma_sorted_by_center, lemma_sorted_member, on_corridors, on_link,
    on_nth_link, sorted_by_center,
};
use crate::geometry::{Point, Rect};
use crate::grid::{Grid, TileType};
use crate::map_builder::{
    attempts_in, covered_from, flips_in, outcome_of, requests_of, BuildError, MapBuilder,
    MapConfig,
};
use crate::placement::{
    lemma_candidate_within_margin, lemma_placed_agrees, lemma_placed_disjoint,
    lemma_placed_from_candidates, pairwise_disjoint, within_margin,
};
use crate::random::{
    answered_by, drawn_since, lemma_same_answers, lemma_served_by_rule, served, RandomSource,
    Request, Rule,
};

verus! {

/// Two points are neighbours in one of the four directions.
pub open spec fn adjacent(a: Point, b: Point) -> bool {
    ||| a.x == b.x && (a.y - b.y == 1 || b.y - a.y == 1)
    ||| a.y == b.y && (a.x - b.x == 1 || b.x - a.x == 1)
}

/// Every point of `path` is a neighbour of the one before it.
pub open spec fn stepwise(path: Seq<Point>) -> bool {
    forall|k: int| 0 < k < path.len() ==> adjacent(path[k - 1], #[trigger] path[k])
}

/// Every point of `path` is a floor tile of `grid`, and each is a neighbour
/// of the one before it.
pub open spec fn is_floor_path(grid: Grid, path: Seq<Point>) -> bool {
    &&& forall|k: int|
        0 <= k < path.len() ==> grid.contains((#[trigger] path[k]).x as int, path[k].y as int)
            && grid.tile(path[k].x as int, path[k].y as int) == TileType::Floor
    &&& stepwise(path)
}

/// One can walk from `from` to `to` over floor tiles of `grid`, stepping
/// from neighbour to neighbour.
pub open spec fn connected(grid: Grid, from: Point, to: Point) -> bool {
    exists|path: Seq<Point>|
        path.len() > 0 && path[0] == from && path.last() == to && #[trigger] is_floor_path(
            grid,
            path,
        )
}

/// The rooms of a generated map are as many as wanted, no two of them
/// overlap, and each keeps a margin to the edge of the grid.
pub proof fn lemma_rooms_apart(built: MapBuilder, config: MapConfig, draws: Seq<i32>)
    requires
        config.valid(),
        built.built_from(config, draws),
    ensures
        built.rooms@.len() == config.num_rooms,
        pairwise_disjoint(built.rooms@),
        forall|i: int|
            0 <= i < built.rooms@.len() ==> within_margin(
                #[trigger] built.rooms@[i],
                config.width as int,
                config.height as int,
            ),
{
    let attempts = attempts_in(config, draws) as nat;
    lemma_placed_disjoint(Seq::empty(), draws, attempts);
    assert forall|i: int| 0 <= i < built.rooms@.len() implies within_margin(
        #[trigger] built.rooms@[i],
        config.width as int,
        config.height as int,
    ) by {
        let j = lemma_placed_from_candidates(Seq::empty(), draws, attempts, i);
        lemma_candidate_within_margin(draws, 4 * j, config.width as int, config.height as int);
    }
}

/// In a generated map every tile that a room covers lies in the grid and
/// is floor, every tile of the grid that a corridor of the chain runs over
/// is floor, and every other tile is wall.
pub proof fn lemma_floor_and_wall(
    built: MapBuilder,
    config: MapConfig,
    draws: Seq<i32>,
    x: int,
    y: int,
)
    requires
        config.valid(),
        built.built_from(config, draws),
    ensures
        covered_from(built.rooms@, 0, x, y) ==> built.map.contains(x, y) && built.map.tile(x, y)
            == TileType::Floor,
        built.map.contains(x, y) && on_corridors(
            sorted_by_center(built.rooms@),
            flips_in(config, draws),
            config.num_rooms - 1,
            x,
            y,
        ) ==> built.map.tile(x, y) == TileType::Floor,
        built.map.contains(x, y) && !covered_from(built.rooms@, 0, x, y) && !on_corridors(
            sorted_by_center(built.rooms@),
            flips_in(config, draws),
            config.num_rooms - 1,
            x,
            y,
        ) ==> built.map.tile(x, y) == TileType::Wall,
{
    lemma_rooms_apart(built, config, draws);
}

/// In a generated map the player starts at the center of the first room
/// placed, and the tile there is floor.
pub proof fn lemma_start_on_floor(built: MapBuilder, config: MapConfig, draws: Seq<i32>)
    requires
        config.valid(),
        built.built_from(config, draws),
    ensures
        built.player_start == built.rooms@[0].midpoint(),
        built.map.contains(built.player_start.x as int, built.player_start.y as int),
        built.map.tile(built.player_start.x as int, built.player_start.y as int)
            == TileType::Floor,
{
    lemma_rooms_apart(built, config, draws);
    lemma_floor_and_wall(
        built,
        config,
        draws,
        built.player_start.x as int,
        built.player_start.y as int,
    );
}

/// Generation is a function of the grid's dimensions, the number of rooms
/// and the draws it is handed: two runs that agree in these and both
/// succeed build the same grid, the same rooms in the same order, and the
/// same start. Where the two runs are also allowed the same number of
/// attempts, both succeed or both give up.
pub proof fn lemma_deterministic(
    first: Result<MapBuilder, BuildError>,
    second: Result<MapBuilder, BuildError>,
    config: MapConfig,
    other: MapConfig,
    draws: Seq<i32>,
)
    requires
        config.valid(),
        other.valid(),
        config.width == other.width,
        config.height == other.height,
        config.num_rooms == other.num_rooms,
        outcome_of(first, config, draws),
        outcome_of(second, other, draws),
    ensures
        first is Ok && second is Ok ==> {
            &&& first->Ok_0.map.width == second->Ok_0.map.width
            &&& first->Ok_0.map.height == second->Ok_0.map.height
            &&& first->Ok_0.map.tiles@ == second->Ok_0.map.tiles@
            &&& first->Ok_0.rooms@ == second->Ok_0.rooms@
            &&& first->Ok_0.player_start == second->Ok_0.player_start
        },
        config.max_attempts == other.max_attempts ==> (first is Ok <==> second is Ok),
        first is Err && second is Err ==> first == second,
{
    match (first, second) {
        (Ok(a), Ok(b)) => {
            assert forall|i: int| 0 <= i < a.map.tiles@.len() implies a.map.tiles@[i]
                == b.map.tiles@[i] by {
                b.map.lemma_index_onto(i);
                let x = i % (config.width as int);
                let y = i / (config.width as int);
                assert(a.map.tile(x, y) == b.map.tile(x, y));
            }
        },
        _ => {},
    }
}

/// Sources bound to one rule build one map: two runs of generation under
/// one configuration, from sources that answer by the same rule and were
/// asked the same before, are handed the same draws. So both give up or
/// both succeed, and where they succeed they build the same grid, the same
/// rooms in the same order, and the same start. Two generators started from
/// one seed are such sources.
pub proof fn lemma_reproducible(
    first: Result<MapBuilder, BuildError>,
    second: Result<MapBuilder, BuildError>,
    config: MapConfig,
    rule: Rule,
    before: Seq<Request>,
    draws: Seq<i32>,
    again: Seq<i32>,
)
    requires
        config.valid(),
        outcome_of(first, config, draws),
        outcome_of(second, config, again),
        answered_by(rule, before, requests_of(config, draws, first is Ok), draws),
        answered_by(rule, before, requests_of(config, again, second is Ok), again),
    ensures
        draws == again,
        first is Ok <==> second is Ok,
        first is Err ==> first == second,
        first is Ok ==> {
            &&& first->Ok_0.map.width == second->Ok_0.map.width
            &&& first->Ok_0.map.height == second->Ok_0.map.height
            &&& first->Ok_0.map.tiles@ == second->Ok_0.map.tiles@
            &&& first->Ok_0.rooms@ == second->Ok_0.rooms@
            &&& first->Ok_0.player_start == second->Ok_0.player_start
        },
{
    let tried = attempts_made(first, config, draws);
    let retried = attempts_made(second, config, again);
    let asked = requests_of(config, draws, first is Ok);
    let reasked = requests_of(config, again, second is Ok);
    let shared = if tried <= retried {
        tried
    } else {
        retried
    };
    lemma_same_answers(rule, before, asked, draws, reasked, again, 4 * shared);
    lemma_placed_agrees(Seq::empty(), draws, again, shared as nat);
    assert(tried == retried);
    assert(first is Ok <==> second is Ok);
    assert(asked =~= reasked);
    lemma_same_answers(rule, before, asked, draws, reasked, again, draws.len() as int);
    assert(draws =~= again);
    lemma_deterministic(first, second, config, config, draws);
}

/// Two runs of generation under one configuration build the same when
/// their sources are bound to one rule and were asked the same before:
/// stated over what `MapBuilder::with_config` ensures of each run.
pub proof fn lemma_equal_sources_equal_maps<R: RandomSource>(
    first: Result<MapBuilder, BuildError>,
    second: Result<MapBuilder, BuildError>,
    config: MapConfig,
    rule: Rule,
    before: R,
    after: R,
    before_again: R,
    after_again: R,
)
    requires
        config.valid(),
        before.answers_by(rule),
        before_again.answers_by(rule),
        before.asked() == before_again.asked(),
        outcome_of(first, config, drawn_since(before.drawn(), after.drawn())),
        outcome_of(second, config, drawn_since(before_again.drawn(), after_again.drawn())),
        served(
            before,
            after,
            requests_of(config, drawn_since(before.drawn(), after.drawn()), first is Ok),
        ),
        served(
            before_again,
            after_again,
            requests_of(
                config,
                drawn_since(before_again.drawn(), after_again.drawn()),
                second is Ok,
            ),
        ),
    ensures
        drawn_since(before.drawn(), after.drawn()) == drawn_since(
            before_again.drawn(),
            after_again.drawn(),
        ),
        first is Ok <==> second is Ok,
        first is Err ==> first == second,
        first is Ok ==> {
            &&& first->Ok_0.map.width == second->Ok_0.map.width
            &&& first->Ok_0.map.height == second->Ok_0.map.height
            &&& first->Ok_0.map.tiles@ == second->Ok_0.map.tiles@
            &&& first->Ok_0.rooms@ == second->Ok_0.rooms@
            &&& first->Ok_0.player_start == second->Ok_0.player_start
        },
{
    let draws = drawn_since(before.drawn(), after.drawn());
    let again = drawn_since(before_again.drawn(), after_again.drawn());
    lemma_served_by_rule(before, after, requests_of(config, draws, first is Ok), rule);
    lemma_served_by_rule(
        before_again,
        after_again,
        requests_of(config, again, second is Ok),
        rule,
    );
    lemma_reproducible(first, second, config, rule, before.asked(), draws, again);
}

/// The number of candidates tried by the run of generation under `config`
/// that ended in `result` on `draws`.
pub open spec fn attempts_made(
    result: Result<MapBuilder, BuildError>,
    config: MapConfig,
    draws: Seq<i32>,
) -> int {
    if result is Ok {
        attempts_in(config, draws)
    } else {
        config.max_attempts as int
    }
}

/// How far apart `a` and `b` are.
spec fn distance(a: int, b: int) -> int {
    if a <= b {
        b - a
    } else {
        a - b
    }
}

/// The coordinate `k` steps from `a` towards `b`.
spec fn toward(a: int, b: int, k: int) -> int {
    if a <= b {
        a + k
    } else {
        a - k
    }
}

/// The points of row `y` from column `x1` to column `x2`.
spec fn row_walk(x1: int, x2: int, y: int) -> Seq<Point> {
    Seq::new(
        (distance(x1, x2) + 1) as nat,
        |k: int| Point { x: toward(x1, x2, k) as i32, y: y as i32 },
    )
}

/// The points of column `x` from row `y1` to row `y2`.
spec fn column_walk(y1: int, y2: int, x: int) -> Seq<Point> {
    Seq::new(
        (distance(y1, y2) + 1) as nat,
        |k: int| Point { x: x as i32, y: toward(y1, y2, k) as i32 },
    )
}

/// The points of the corridor from `prev` to `cur`, in walking order.
spec fn link_walk(prev: Point, cur: Point, flip: i32) -> Seq<Point> {
    if flip == 1 {
        column_walk(prev.y as int, cur.y as int, prev.x as int) + row_walk(
            prev.x as int,
            cur.x as int,
            cur.y as int,
        ).skip(1)
    } else {
        row_walk(prev.x as int, cur.x as int, prev.y as int) + column_walk(
            prev.y as int,
            cur.y as int,
            cur.x as int,
        ).skip(1)
    }
}

/// A walk along a row starts and ends where it should, goes from neighbour
/// to neighbour, and stays in the row between its two ends.
proof fn lemma_row_walk(x1: i32, x2: i32, y: i32)
    ensures
        row_walk(x1 as int, x2 as int, y as int).len() == distance(x1 as int, x2 as int) + 1,
        row_walk(x1 as int, x2 as int, y as int)[0] == (Point { x: x1, y }),
        row_walk(x1 as int, x2 as int, y as int).last() == (Point { x: x2, y }),
        stepwise(row_walk(x1 as int, x2 as int, y as int)),
        forall|k: int|
            0 <= k < row_walk(x1 as int, x2 as int, y as int).len() ==> {
                let p = #[trigger] row_walk(x1 as int, x2 as int, y as int)[k];
                p.y == y && (x1 <= p.x <= x2 || x2 <= p.x <= x1)
            },
{
}

/// A walk along a column starts and ends where it should, goes from
/// neighbour to neighbour, and stays in the column between its two ends.
proof fn lemma_column_walk(y1: i32, y2: i32, x: i32)
    ensures
        column_walk(y1 as int, y2 as int, x as int).len() == distance(y1 as int, y2 as int) + 1,
        column_walk(y1 as int, y2 as int, x as int)[0] == (Point { x, y: y1 }),
        column_walk(y1 as int, y2 as int, x as int).last() == (Point { x, y: y2 }),
        stepwise(column_walk(y1 as int, y2 as int, x as int)),
        forall|k: int|
            0 <= k < column_walk(y1 as int, y2 as int, x as int).len() ==> {
                let p = #[trigger] column_walk(y1 as int, y2 as int, x as int)[k];
                p.x == x && (y1 <= p.y <= y2 || y2 <= p.y <= y1)
            },
{
}

/// A walk that ends where a second one starts can be continued by the
/// second: the joined walk goes from neighbour to neighbour, from the start
/// of the first to the end of the second, over points of the two.
proof fn lemma_join_walks(head: Seq<Point>, tail: Seq<Point>)
    requires
        head.len() > 0,
        tail.len() > 0,
        head.last() == tail[0],
        stepwise(head),
        stepwise(tail),
    ensures
        (head + tail.skip(1)).len() == head.len() + tail.len() - 1,
        (head + tail.skip(1))[0] == head[0],
        (head + tail.skip(1)).last() == tail.last(),
        stepwise(head + tail.skip(1)),
        forall|k: int|
            0 <= k < head.len() + tail.len() - 1 ==> #[trigger] (head + tail.skip(1))[k] == if k
                < head.len() {
                head[k]
            } else {
                tail[k - head.len() + 1]
            },
{
    let walk = head + tail.skip(1);
    assert forall|k: int| 0 < k < walk.len() implies adjacent(walk[k - 1], #[trigger] walk[k]) by {
        if k < head.len() {
            assert(adjacent(head[k - 1], head[k]));
        } else {
            assert(adjacent(tail[k - head.len()], tail[k - head.len() + 1]));
        }
    }
}

/// The walk along a corridor starts at `prev`, ends at `cur`, goes from
/// neighbour to neighbour, and stays on the corridor and between the two
/// points.
proof fn lemma_link_walk(prev: Point, cur: Point, flip: i32)
    ensures
        link_walk(prev, cur, flip).len() > 0,
        link_walk(prev, cur, flip)[0] == prev,
        link_walk(prev, cur, flip).last() == cur,
        stepwise(link_walk(prev, cur, flip)),
        forall|k: int|
            0 <= k < link_walk(prev, cur, flip).len() ==> {
                let p = #[trigger] link_walk(prev, cur, flip)[k];
                &&& on_link(prev, cur, flip, p.x as int, p.y as int)
                &&& (prev.x <= p.x <= cur.x || cur.x <= p.x <= prev.x)
                &&& (prev.y <= p.y <= cur.y || cur.y <= p.y <= prev.y)
            },
{
    let walk = link_walk(prev, cur, flip);
    if flip == 1 {
        let head = column_walk(prev.y as int, cur.y as int, prev.x as int);
        let tail = row_walk(prev.x as int, cur.x as int, cur.y as int);
        lemma_column_walk(prev.y, cur.y, prev.x);
        lemma_row_walk(prev.x, cur.x, cur.y);
        lemma_join_walks(head, tail);
        assert forall|k: int| 0 <= k < walk.len() implies {
            let p = #[trigger] walk[k];
            &&& on_link(prev, cur, flip, p.x as int, p.y as int)
            &&& (prev.x <= p.x <= cur.x || cur.x <= p.x <= prev.x)
            &&& (prev.y <= p.y <= cur.y || cur.y <= p.y <= prev.y)
        } by {
            if k < head.len() {
                assert(walk[k] == head[k]);
            } else {
                assert(walk[k] == tail[k - head.len() + 1]);
            }
        }
    } else {
        let head = row_walk(prev.x as int, cur.x as int, prev.y as int);
        let tail = column_walk(prev.y as int, cur.y as int, cur.x as int);
        lemma_row_walk(prev.x, cur.x, prev.y);
        lemma_column_walk(prev.y, cur.y, cur.x);
        lemma_join_walks(head, tail);
        assert forall|k: int| 0 <= k < walk.len() implies {
            let p = #[trigger] walk[k];
            &&& on_link(prev, cur, flip, p.x as int, p.y as int)
            &&& (prev.x <= p.x <= cur.x || cur.x <= p.x <= prev.x)
            &&& (prev.y <= p.y <= cur.y || cur.y <= p.y <= prev.y)
        } by {
            if k < head.len() {
                assert(walk[k] == head[k]);
            } else {
                assert(walk[k] == tail[k - head.len() + 1]);
            }
        }
    }
}

/// Where every tile of the grid on the corridor from `prev` to `cur` is
/// floor, and the two points lie in the grid, a walk over floor tiles leads
/// from `prev` to `cur`.
pub proof fn lemma_link_connected(grid: Grid, prev: Point, cur: Point, flip: i32)
    requires
        grid.contains(prev.x as int, prev.y as int),
        grid.contains(cur.x as int, cur.y as int),
        forall|x: int, y: int| #![trigger grid.tile(x, y)]
            grid.contains(x, y) && on_link(prev, cur, flip, x, y) ==> grid.tile(x, y)
                == TileType::Floor,
    ensures
        connected(grid, prev, cur),
{
    lemma_link_walk(prev, cur, flip);
    assert(is_floor_path(grid, link_walk(prev, cur, flip)));
}

/// Where every tile of the grid on the corridors of the chain is floor,
/// a walk over floor tiles leads from the center of room `i - 1` of the
/// chain to the center of room `i`, if both centers lie in the grid.
pub proof fn lemma_corridor_connects(grid: Grid, chain: Seq<Rect>, flips: Seq<i32>, i: int)
    requires
        1 <= i <= flips.len(),
        grid.contains(chain[i - 1].midpoint().x as int, chain[i - 1].midpoint().y as int),
        grid.contains(chain[i].midpoint().x as int, chain[i].midpoint().y as int),
        forall|x: int, y: int| #![trigger grid.tile(x, y)]
            grid.contains(x, y) && on_corridors(chain, flips, flips.len() as int, x, y)
                ==> grid.tile(x, y) == TileType::Floor,
    ensures
        connected(grid, chain[i - 1].midpoint(), chain[i].midpoint()),
{
    let prev = chain[i - 1].midpoint();
    let cur = chain[i].midpoint();
    assert forall|x: int, y: int|
        grid.contains(x, y) && on_link(prev, cur, flips[i - 1], x, y) implies #[trigger] grid.tile(
        x,
        y,
    ) == TileType::Floor by {
        assert(on_nth_link(chain, flips, i, x, y));
    }
    lemma_link_connected(grid, prev, cur, flips[i - 1]);
}

/// In a generated map each room of the chain, from the second on, can be
/// reached from the room before it: a walk over floor tiles leads from
/// center to center.
pub proof fn lemma_chain_connected(built: MapBuilder, config: MapConfig, draws: Seq<i32>, i: int)
    requires
        config.valid(),
        built.built_from(config, draws),
        1 <= i < config.num_rooms,
    ensures
        connected(
            built.map,
            sorted_by_center(built.rooms@)[i - 1].midpoint(),
            sorted_by_center(built.rooms@)[i].midpoint(),
        ),
{
    lemma_sorted_by_center(built.rooms@);
    lemma_rooms_apart(built, config, draws);
    lemma_sorted_member(built.rooms@, i - 1);
    lemma_sorted_member(built.rooms@, i);
    lemma_corridor_connects(
        built.map,
        sorted_by_center(built.rooms@),
        flips_in(config, draws),
        i,
    );
}

/// A floor tile can be reached from itself.
proof fn lemma_connected_reflexive(grid: Grid, at: Point)
    requires
        grid.contains(at.x as int, at.y as int),
        grid.tile(at.x as int, at.y as int) == TileType::Floor,
    ensures
        connected(grid, at, at),
{
    assert(is_floor_path(grid, seq![at]));
}

/// A walk can be taken backwards.
proof fn lemma_connected_symmetric(grid: Grid, from: Point, to: Point)
    requires
        connected(grid, from, to),
    ensures
        connected(grid, to, from),
{
    let path = choose|path: Seq<Point>|
        path.len() > 0 && path[0] == from && path.last() == to && #[trigger] is_floor_path(
            grid,
            path,
        );
    assert(is_floor_path(grid, path.reverse()));
}

/// Two walks, the second from where the first ends, make one.
proof fn lemma_connected_transitive(grid: Grid, from: Point, via: Point, to: Point)
    requires
        connected(grid, from, via),
        connected(grid, via, to),
    ensures
        connected(grid, from, to),
{
    let head = choose|path: Seq<Point>|
        path.len() > 0 && path[0] == from && path.last() == via && #[trigger] is_floor_path(
            grid,
            path,
        );
    let tail = choose|path: Seq<Point>|
        path.len() > 0 && path[0] == via && path.last() == to && #[trigger] is_floor_path(
            grid,
            path,
        );
    lemma_join_walks(head, tail);
    assert(is_floor_path(grid, head + tail.skip(1)));
}

/// In a generated map every room of the chain can be reached from every
/// room before it.
proof fn lemma_chain_span(
    built: MapBuilder,
    config: MapConfig,
    draws: Seq<i32>,
    i: int,
    j: int,
)
    requires
        config.valid(),
        built.built_from(config, draws),
        0 <= i <= j < config.num_rooms,
    ensures
        connected(
            built.map,
            sorted_by_center(built.rooms@)[i].midpoint(),
            sorted_by_center(built.rooms@)[j].midpoint(),
        ),
    decreases j - i,
{
    let chain = sorted_by_center(built.rooms@);
    lemma_sorted_by_center(built.rooms@);
    if i == j {
        lemma_sorted_member(built.rooms@, i);
        lemma_rooms_apart(built, config, draws);
        lemma_connected_reflexive(built.map, chain[i].midpoint());
    } else {
        lemma_chain_span(built, config, draws, i, j - 1);
        lemma_chain_connected(built, config, draws, j);
        lemma_connected_transitive(
            built.map,
            chain[i].midpoint(),
            chain[j - 1].midpoint(),
            chain[j].midpoint(),
        );
    }
}

/// In a generated map the center of every room can be reached from the
/// player's start by a walk over floor tiles.
pub proof fn lemma_rooms_reachable(built: MapBuilder, config: MapConfig, draws: Seq<i32>, i: int)
    requires
        config.valid(),
        built.built_from(config, draws),
        0 <= i < config.num_rooms,
    ensures
        connected(built.map, built.player_start, built.rooms@[i].midpoint()),
{
    let chain = sorted_by_center(built.rooms@);
    lemma_sorted_by_center(built.rooms@);
    let a = lemma_room_in_chain(built.rooms@, 0);
    let b = lemma_room_in_chain(built.rooms@, i);
    if a <= b {
        lemma_chain_span(built, config, draws, a, b);
    } else {
        lemma_chain_span(built, config, draws, b, a);
        lemma_connected_symmetric(built.map, chain[b].midpoint(), chain[a].midpoint());
    }
}

/// A generated map is well built.
pub proof fn lemma_well_built(built: MapBuilder, config: MapConfig, draws: Seq<i32>)
    requires
        config.valid(),
        built.built_from(config, draws),
    ensures
        built.well_built(config),
{
    let chain = sorted_by_center(built.rooms@);
    lemma_rooms_apart(built, config, draws);
    lemma_sorted_by_center(built.rooms@);
    assert forall|i: int, x: int, y: int|
        0 <= i < built.rooms@.len() && #[trigger] built.rooms@[i].covers(x, y) implies built.map.contains(
        x,
        y,
    ) && built.map.tile(x, y) == TileType::Floor by {
    }
    assert forall|i: int| 1 <= i < chain.len() implies connected(
        built.map,
        chain[i - 1].midpoint(),
        #[trigger] chain[i].midpoint(),
    ) by {
        lemma_chain_connected(built, config, draws, i);
    }
    assert forall|i: int| 0 <= i < built.rooms@.len() implies connected(
        built.map,
        built.player_start,
        #[trigger] built.rooms@[i].midpoint(),
    ) by {
        lemma_rooms_reachable(built, config, draws, i);
    }
}

} // verus!
