//! The builder: it fills a grid with wall, places rooms, links them with
//! corridors and picks the player's start.
use vstd::prelude::*;
use crate::corridors::{
    flip_request, flip_requests, lemma_corridors_extend, lemma_sorted_by_center, on_corridors,
    on_horizontal_tunnel, on_link, on_vertical_tunnel, sort_by_center, sorted_by_center,
};
use crate::geometry::{Point, Rect};
use crate::grid::{Grid, TileType};
use crate::laws::{connected, lemma_corridor_connects, lemma_link_connected, lemma_well_built};
use crate::placement::{
    candidate_at, candidate_in_range, candidate_requests, candidates_in_range, draw_candidate,
    lemma_placed_agrees, lemma_placed_grows, overlaps_any, pairwise_disjoint, placed,
    placement_run, room_requests, within_margin, ROOM_MARGIN,
};
use crate::random::{
    drawn_since, lemma_served_nothing, lemma_served_one, lemma_served_records,
    lemma_served_then, served, RandomSource, Request,
};

verus! {

/// Why no map was built.
#[derive(Clone, Copy, Debug, PartialEq, Eq, Structural)]
pub enum BuildError {
    /// The attempts allowed were used up before all rooms were placed.
    PlacementExhausted,
}

/// The width of the grid that `MapBuilder::new` builds.
pub const SCREEN_WIDTH: i32 = 80;

/// The height of the grid that `MapBuilder::new` builds.
pub const SCREEN_HEIGHT: i32 = 50;

/// The number of rooms that `MapBuilder::new` places.
pub const NUM_ROOMS: usize = 5;

/// The number of candidate rooms that `MapBuilder::new` may try.
pub const MAX_ATTEMPTS: usize = 1000;

/// What to build: the grid's dimensions, the number of rooms, and how many
/// candidate rooms may be tried before placement gives up.
#[derive(Clone, Copy, Debug, PartialEq, Eq, Structural)]
pub struct MapConfig {
    pub width: i32,
    pub height: i32,
    pub num_rooms: usize,
    pub max_attempts: usize,
}

impl MapConfig {
    /// The grid leaves room for the range that candidate corners are drawn
    /// from, its tiles can be indexed, and at least one room is wanted.
    pub open spec fn valid(&self) -> bool {
        &&& self.width > ROOM_MARGIN + 1
        &&& self.height > ROOM_MARGIN + 1
        &&& self.width * self.height <= usize::MAX
        &&& self.num_rooms >= 1
    }

    /// The configuration that `MapBuilder::new` uses.
    pub open spec fn standard_config() -> MapConfig {
        MapConfig {
            width: SCREEN_WIDTH,
            height: SCREEN_HEIGHT,
            num_rooms: NUM_ROOMS,
            max_attempts: MAX_ATTEMPTS,
        }
    }

    /// The configuration that `MapBuilder::new` uses.
    pub fn standard() -> (config: MapConfig)
        ensures
            config == MapConfig::standard_config(),
            config.valid(),
    {
        MapConfig {
            width: SCREEN_WIDTH,
            height: SCREEN_HEIGHT,
            num_rooms: NUM_ROOMS,
            max_attempts: MAX_ATTEMPTS,
        }
    }

    /// Tests whether the configuration is valid.
    pub fn is_valid(&self) -> (ok: bool)
        ensures
            ok == self.valid(),
    {
        if self.width <= ROOM_MARGIN + 1 || self.height <= ROOM_MARGIN + 1 || self.num_rooms < 1 {
            return false;
        }
        assert(0 <= self.width * self.height <= 0x7fff_ffff * 0x7fff_ffff) by (nonlinear_arith)
            requires
                0 < self.width <= 0x7fff_ffff,
                0 < self.height <= 0x7fff_ffff,
        ;
        let tiles: u64 = (self.width as u64) * (self.height as u64);
        tiles <= usize::MAX as u64
    }
}

/// The number of candidates tried by a run of generation under `config`
/// that succeeds on `draws`: all the draws but one for each corridor are
/// read four to a candidate.
pub open spec fn attempts_in(config: MapConfig, draws: Seq<i32>) -> int {
    (draws.len() - (config.num_rooms - 1)) / 4
}

/// The draws that decide the corridors in a run of generation under
/// `config` that succeeds on `draws`: those behind the candidates.
pub open spec fn flips_in(config: MapConfig, draws: Seq<i32>) -> Seq<i32> {
    draws.skip(4 * attempts_in(config, draws))
}

/// What a run of generation under `config` asks of its source when it is
/// handed `draws`: the four ranges of a candidate for each attempt, and
/// then, where it succeeds, the range of a flip for each corridor.
pub open spec fn requests_of(config: MapConfig, draws: Seq<i32>, done: bool) -> Seq<Request> {
    if done {
        room_requests(config.width, config.height, attempts_in(config, draws) as nat)
            + flip_requests((config.num_rooms - 1) as nat)
    } else {
        room_requests(config.width, config.height, config.max_attempts as nat)
    }
}

/// Generation under `config` gives up on `draws`: the budget of attempts is
/// spent, and rooms are still missing.
pub open spec fn exhausted_on(config: MapConfig, draws: Seq<i32>) -> bool {
    let budget = config.max_attempts as nat;
    &&& draws.len() == 4 * budget
    &&& candidates_in_range(draws, budget as int, config.width as int, config.height as int)
    &&& placement_run(Seq::empty(), draws, budget, config.num_rooms as nat, budget)
    &&& placed(Seq::empty(), draws, budget).len() < config.num_rooms
}

/// `result` is what generation under `config` returns when the random
/// source hands out `draws`.
pub open spec fn outcome_of(
    result: Result<MapBuilder, BuildError>,
    config: MapConfig,
    draws: Seq<i32>,
) -> bool {
    match result {
        Ok(built) => built.built_from(config, draws),
        Err(error) => error == BuildError::PlacementExhausted && exhausted_on(config, draws),
    }
}

/// Whether one of the rooms from position `from` on covers `(x, y)`.
pub open spec fn covered_from(rooms: Seq<Rect>, from: int, x: int, y: int) -> bool {
    exists|i: int| from <= i < rooms.len() && (#[trigger] rooms[i]).covers(x, y)
}

/// A map under construction: the grid, the rooms in the order they were
/// placed, and the point at which the player starts.
#[derive(Debug, PartialEq, Eq)]
pub struct MapBuilder {
    pub map: Grid,
    pub rooms: Vec<Rect>,
    pub player_start: Point,
}

impl MapBuilder {
    /// `self` is the map that generation under `config` builds when the
    /// random source hands out `draws`.
    ///
    /// The draws are, in order, four for each candidate room tried and then
    /// one for each corridor. The rooms are those that placement accepts
    /// from the candidates, and there are as many as wanted. A tile is floor
    /// where a room covers it or a corridor of the chain runs over it, and
    /// wall everywhere else. The player starts at the center of the first
    /// room placed.
    pub open spec fn built_from(&self, config: MapConfig, draws: Seq<i32>) -> bool {
        let wanted = config.num_rooms as int;
        let attempts = attempts_in(config, draws);
        let flips = flips_in(config, draws);
        let chain = sorted_by_center(self.rooms@);
        &&& attempts >= 1
        &&& draws.len() == 4 * attempts + wanted - 1
        &&& candidates_in_range(draws, attempts, config.width as int, config.height as int)
        &&& placement_run(
            Seq::empty(),
            draws,
            attempts as nat,
            wanted as nat,
            config.max_attempts as nat,
        )
        &&& self.rooms@ == placed(Seq::empty(), draws, attempts as nat)
        &&& self.rooms@.len() == wanted
        &&& forall|i: int| 0 <= i < flips.len() ==> 0 <= #[trigger] flips[i] < 2
        &&& self.map.wf()
        &&& self.map.width == config.width
        &&& self.map.height == config.height
        &&& forall|x: int, y: int| #![trigger self.map.tile(x, y)]
            self.map.contains(x, y) ==> self.map.tile(x, y) == if covered_from(self.rooms@, 0, x, y)
                || on_corridors(chain, flips, wanted - 1, x, y) {
                TileType::Floor
            } else {
                TileType::Wall
            }
        &&& self.player_start == self.rooms@[0].midpoint()
    }

    /// What holds of a map generated under `config`, whatever the draws:
    /// the rooms are as many as wanted, no two overlap and each keeps a
    /// margin to the edge of the grid; every tile a room covers is floor; the
    /// player starts at the center of the first room placed, on floor; each
    /// room of the chain can be reached over floor from the room before it;
    /// and so every room can be reached from the start.
    pub open spec fn well_built(&self, config: MapConfig) -> bool {
        let chain = sorted_by_center(self.rooms@);
        let start = self.player_start;
        &&& self.rooms@.len() == config.num_rooms
        &&& pairwise_disjoint(self.rooms@)
        &&& forall|i: int|
            0 <= i < self.rooms@.len() ==> within_margin(
                #[trigger] self.rooms@[i],
                config.width as int,
                config.height as int,
            )
        &&& forall|i: int, x: int, y: int|
            0 <= i < self.rooms@.len() && #[trigger] self.rooms@[i].covers(x, y)
                ==> self.map.contains(x, y) && self.map.tile(x, y) == TileType::Floor
        &&& start == self.rooms@[0].midpoint()
        &&& self.map.contains(start.x as int, start.y as int)
        &&& self.map.tile(start.x as int, start.y as int) == TileType::Floor
        &&& forall|i: int|
            1 <= i < chain.len() ==> connected(
                self.map,
                chain[i - 1].midpoint(),
                #[trigger] chain[i].midpoint(),
            )
        &&& forall|i: int|
            0 <= i < self.rooms@.len() ==> connected(
                self.map,
                start,
                #[trigger] self.rooms@[i].midpoint(),
            )
    }

    /// Builds a map with the standard configuration, drawing from `rng`.
    pub fn new<R: RandomSource>(rng: &mut R) -> (result: Result<MapBuilder, BuildError>)
        ensures
            final(rng).asked() == old(rng).asked() + requests_of(
                MapConfig::standard_config(),
                drawn_since(old(rng).drawn(), final(rng).drawn()),
                result is Ok,
            ),
            final(rng).drawn() == old(rng).drawn() + drawn_since(
                old(rng).drawn(),
                final(rng).drawn(),
            ),
            served(
                *old(rng),
                *final(rng),
                requests_of(
                    MapConfig::standard_config(),
                    drawn_since(old(rng).drawn(), final(rng).drawn()),
                    result is Ok,
                ),
            ),
            outcome_of(
                result,
                MapConfig::standard_config(),
                drawn_since(old(rng).drawn(), final(rng).drawn()),
            ),
            result matches Ok(built) ==> built.well_built(MapConfig::standard_config()),
    {
        let config = MapConfig::standard();
        MapBuilder::with_config(rng, &config)
    }

    /// Builds a map under `config`, drawing from `rng`: a grid of wall, in
    /// it the rooms wanted, corridors that link them in a chain, and the
    /// player's start at the center of the first room. Gives up with
    /// `PlacementExhausted` where the attempts allowed do not place all the
    /// rooms.
    #[verifier::rlimit(40)]
    pub fn with_config<R: RandomSource>(rng: &mut R, config: &MapConfig) -> (result: Result<
        MapBuilder,
        BuildError,
    >)
        requires
            config.valid(),
        ensures
            final(rng).asked() == old(rng).asked() + requests_of(
                *config,
                drawn_since(old(rng).drawn(), final(rng).drawn()),
                result is Ok,
            ),
            final(rng).drawn() == old(rng).drawn() + drawn_since(
                old(rng).drawn(),
                final(rng).drawn(),
            ),
            served(
                *old(rng),
                *final(rng),
                requests_of(
                    *config,
                    drawn_since(old(rng).drawn(), final(rng).drawn()),
                    result is Ok,
                ),
            ),
            outcome_of(result, *config, drawn_since(old(rng).drawn(), final(rng).drawn())),
            result matches Ok(built) ==> built.well_built(*config),
    {
        let ghost start = *rng;
        let mut builder = MapBuilder {
            map: Grid::new(config.width, config.height),
            rooms: Vec::new(),
            player_start: Point::zero(),
        };
        builder.fill(TileType::Wall);
        let placing = builder.build_random_rooms(rng, config.num_rooms, config.max_attempts);
        let ghost placed_at = *rng;
        let ghost room_draws = drawn_since(start.drawn(), rng.drawn());
        let ghost attempts: int = room_draws.len() as int / 4;
        if placing.is_err() {
            proof {
                lemma_served_records(
                    start,
                    *rng,
                    room_requests(config.width, config.height, attempts as nat),
                );
            }
            return Err(BuildError::PlacementExhausted);
        }
        builder.build_corridors(rng);
        builder.player_start = builder.rooms[0].center();
        proof {
            let flips = drawn_since(placed_at.drawn(), rng.drawn());
            let draws = drawn_since(start.drawn(), rng.drawn());
            let wanted = config.num_rooms as int;
            lemma_served_then(
                start,
                placed_at,
                *rng,
                room_requests(config.width, config.height, attempts as nat),
                flip_requests(flips.len()),
            );
            assert(attempts >= 1 && builder.rooms@.len() == wanted) by {
                if attempts >= 1 {
                    lemma_placed_grows(
                        Seq::empty(),
                        room_draws,
                        (attempts - 1) as nat,
                        attempts as nat,
                    );
                }
            }
            assert(draws.skip(4 * attempts) =~= flips);
            assert forall|j: nat| j <= attempts implies #[trigger] placed(Seq::empty(), draws, j)
                == placed(Seq::empty(), room_draws, j) by {
                lemma_placed_agrees(Seq::empty(), draws, room_draws, j);
            }
            assert forall|j: int| 0 <= j < attempts implies #[trigger] candidate_in_range(
                draws,
                4 * j,
                config.width as int,
                config.height as int,
            ) by {
                assert(candidate_in_range(
                    room_draws,
                    4 * j,
                    config.width as int,
                    config.height as int,
                ));
            }
            lemma_well_built(builder, *config, draws);
            lemma_served_records(start, *rng, requests_of(*config, draws, true));
        }
        Ok(builder)
    }

    /// Sets every tile of the grid to `tile`.
    pub fn fill(&mut self, tile: TileType)
        ensures
            final(self).map.width == old(self).map.width,
            final(self).map.height == old(self).map.height,
            final(self).map.tiles@.len() == old(self).map.tiles@.len(),
            forall|i: int| 0 <= i < final(self).map.tiles@.len() ==> final(self).map.tiles@[i] == tile,
            old(self).map.wf() ==> final(self).map.wf() && forall|x: int, y: int|
                final(self).map.contains(x, y) ==> #[trigger] final(self).map.tile(x, y) == tile,
            final(self).rooms@ == old(self).rooms@,
            final(self).player_start == old(self).player_start,
    {
        let mut i: usize = 0;
        while i < self.map.tiles.len()
            invariant
                self.map.width == old(self).map.width,
                self.map.height == old(self).map.height,
                self.map.tiles@.len() == old(self).map.tiles@.len(),
                forall|j: int| 0 <= j < i ==> self.map.tiles@[j] == tile,
                self.rooms@ == old(self).rooms@,
                self.player_start == old(self).player_start,
            decreases self.map.tiles@.len() - i,
        {
            self.map.tiles[i] = tile;
            i += 1;
        }
        proof {
            if old(self).map.wf() {
                assert forall|x: int, y: int| self.map.contains(x, y) implies #[trigger] self.map.tile(
                    x,
                    y,
                ) == tile by {
                    self.map.lemma_index_in_range(x, y);
                }
            }
        }
    }

    /// Tests whether `room` overlaps one of the rooms placed so far.
    pub fn overlaps_placed(&self, room: &Rect) -> (overlap: bool)
        ensures
            overlap == overlaps_any(self.rooms@, *room),
    {
        let mut overlap = false;
        let mut i: usize = 0;
        while i < self.rooms.len()
            invariant
                i <= self.rooms@.len(),
                overlap == exists|j: int| 0 <= j < i && (#[trigger] self.rooms@[j]).overlaps(*room),
            decreases self.rooms@.len() - i,
        {
            if self.rooms[i].intersect(room) {
                overlap = true;
            }
            i += 1;
        }
        overlap
    }

    /// Turns to floor every tile that `room` covers, except tiles in column
    /// 0 or row 0 and points outside the grid.
    pub fn carve_room(&mut self, room: &Rect)
        requires
            old(self).map.wf(),
        ensures
            final(self).map.wf(),
            final(self).map.width == old(self).map.width,
            final(self).map.height == old(self).map.height,
            final(self).rooms@ == old(self).rooms@,
            final(self).player_start == old(self).player_start,
            forall|x: int, y: int| #![trigger final(self).map.tile(x, y)]
                old(self).map.contains(x, y) ==> final(self).map.tile(x, y) == if room.covers(x, y)
                    && x > 0 && y > 0 {
                    TileType::Floor
                } else {
                    old(self).map.tile(x, y)
                },
    {
        let mut y: i32 = room.y1;
        while y < room.y2
            invariant
                room.y1 <= y,
                self.map.wf(),
                self.map.width == old(self).map.width,
                self.map.height == old(self).map.height,
                self.rooms@ == old(self).rooms@,
                self.player_start == old(self).player_start,
                forall|px: int, py: int| #![trigger self.map.tile(px, py)]
                    old(self).map.contains(px, py) ==> self.map.tile(px, py) == if room.covers(
                        px,
                        py,
                    ) && px > 0 && py > 0 && py < y {
                        TileType::Floor
                    } else {
                        old(self).map.tile(px, py)
                    },
            decreases room.y2 - y,
        {
            let mut x: i32 = room.x1;
            while x < room.x2
                invariant
                    room.x1 <= x,
                    room.y1 <= y < room.y2,
                    self.map.wf(),
                    self.map.width == old(self).map.width,
                    self.map.height == old(self).map.height,
                    self.rooms@ == old(self).rooms@,
                    self.player_start == old(self).player_start,
                    forall|px: int, py: int| #![trigger self.map.tile(px, py)]
                        old(self).map.contains(px, py) ==> self.map.tile(px, py) == if room.covers(
                            px,
                            py,
                        ) && px > 0 && py > 0 && (py < y || (py == y && px < x)) {
                            TileType::Floor
                        } else {
                            old(self).map.tile(px, py)
                        },
                decreases room.x2 - x,
            {
                if x > 0 && x < self.map.width && y > 0 && y < self.map.height {
                    self.map.set_tile(Point::new(x, y), TileType::Floor);
                }
                x += 1;
            }
            y += 1;
        }
    }

    /// Places `room` unless it overlaps a room placed before: carves it
    /// into the grid and puts it behind the rooms held. Says whether it was
    /// placed.
    pub fn place_room(&mut self, room: &Rect) -> (placed: bool)
        requires
            old(self).map.wf(),
        ensures
            placed == !overlaps_any(old(self).rooms@, *room),
            final(self).rooms@ == if placed {
                old(self).rooms@.push(*room)
            } else {
                old(self).rooms@
            },
            final(self).map.wf(),
            final(self).map.width == old(self).map.width,
            final(self).map.height == old(self).map.height,
            final(self).player_start == old(self).player_start,
            forall|x: int, y: int| #![trigger final(self).map.tile(x, y)]
                old(self).map.contains(x, y) ==> final(self).map.tile(x, y) == if placed
                    && room.covers(x, y) && x > 0 && y > 0 {
                    TileType::Floor
                } else {
                    old(self).map.tile(x, y)
                },
    {
        if self.overlaps_placed(room) {
            false
        } else {
            self.carve_room(room);
            self.rooms.push(*room);
            true
        }
    }

    /// Tries candidate rooms drawn from `rng` until `num_rooms` rooms are
    /// held or `max_attempts` candidates have been tried. A candidate that
    /// overlaps no room held is carved into the grid and joins the rooms.
    /// The result says whether `num_rooms` rooms are held at the end.
    #[verifier::rlimit(40)]
    pub fn build_random_rooms<R: RandomSource>(
        &mut self,
        rng: &mut R,
        num_rooms: usize,
        max_attempts: usize,
    ) -> (result: Result<(), BuildError>)
        requires
            old(self).map.wf(),
            old(self).map.width > ROOM_MARGIN + 1,
            old(self).map.height > ROOM_MARGIN + 1,
        ensures
            ({
                let draws = drawn_since(old(rng).drawn(), final(rng).drawn());
                let attempts = draws.len() / 4;
                let width = old(self).map.width as int;
                let height = old(self).map.height as int;
                &&& final(rng).asked() == old(rng).asked() + room_requests(
                    old(self).map.width,
                    old(self).map.height,
                    attempts,
                )
                &&& final(rng).drawn() == old(rng).drawn() + draws
                &&& served(
                    *old(rng),
                    *final(rng),
                    room_requests(old(self).map.width, old(self).map.height, attempts),
                )
                &&& draws.len() == 4 * attempts
                &&& placement_run(
                    old(self).rooms@,
                    draws,
                    attempts,
                    num_rooms as nat,
                    max_attempts as nat,
                )
                &&& candidates_in_range(draws, attempts as int, width, height)
                &&& final(self).rooms@ == placed(old(self).rooms@, draws, attempts)
                &&& result is Ok <==> final(self).rooms@.len() >= num_rooms
                &&& result is Ok ==> old(self).rooms@.len() + attempts >= num_rooms
                &&& final(self).map.wf()
                &&& final(self).map.width == width
                &&& final(self).map.height == height
                &&& final(self).player_start == old(self).player_start
                &&& forall|x: int, y: int| #![trigger final(self).map.tile(x, y)]
                    old(self).map.contains(x, y) ==> final(self).map.tile(x, y) == if covered_from(
                        final(self).rooms@,
                        old(self).rooms@.len() as int,
                        x,
                        y,
                    ) {
                        TileType::Floor
                    } else {
                        old(self).map.tile(x, y)
                    }
            }),
    {
        let ghost start = *rng;
        let ghost init = self.rooms@;
        let ghost mut draws: Seq<i32> = Seq::empty();
        let mut attempts: usize = 0;
        proof {
            lemma_served_nothing(start);
            assert(room_requests(self.map.width, self.map.height, 0) =~= Seq::<Request>::empty());
            assert(drawn_since(start.drawn(), rng.drawn()) =~= draws);
        }
        while self.rooms.len() < num_rooms && attempts < max_attempts
            invariant
                attempts <= max_attempts,
                self.map.wf(),
                self.map.width == old(self).map.width,
                self.map.height == old(self).map.height,
                self.map.width > ROOM_MARGIN + 1,
                self.map.height > ROOM_MARGIN + 1,
                self.player_start == old(self).player_start,
                init == old(self).rooms@,
                start == *old(rng),
                served(
                    start,
                    *rng,
                    room_requests(self.map.width, self.map.height, attempts as nat),
                ),
                draws == drawn_since(start.drawn(), rng.drawn()),
                draws.len() == 4 * attempts,
                candidates_in_range(
                    draws,
                    attempts as int,
                    self.map.width as int,
                    self.map.height as int,
                ),
                self.rooms@ == placed(init, draws, attempts as nat),
                init.len() <= self.rooms@.len(),
                forall|j: nat| j < attempts ==> (#[trigger] placed(init, draws, j)).len() < num_rooms,
                forall|x: int, y: int| #![trigger self.map.tile(x, y)]
                    old(self).map.contains(x, y) ==> self.map.tile(x, y) == if covered_from(
                        self.rooms@,
                        init.len() as int,
                        x,
                        y,
                    ) {
                        TileType::Floor
                    } else {
                        old(self).map.tile(x, y)
                    },
            decreases max_attempts - attempts,
        {
            let ghost here = *rng;
            let room = draw_candidate(rng, self.map.width, self.map.height);
            let ghost earlier = draws;
            let ghost held = self.rooms@;
            proof {
                let step = drawn_since(here.drawn(), rng.drawn());
                lemma_served_then(
                    start,
                    here,
                    *rng,
                    room_requests(self.map.width, self.map.height, attempts as nat),
                    candidate_requests(self.map.width, self.map.height),
                );
                assert(room_requests(self.map.width, self.map.height, attempts as nat)
                    + candidate_requests(self.map.width, self.map.height) =~= room_requests(
                    self.map.width,
                    self.map.height,
                    (attempts + 1) as nat,
                ));
                draws = earlier + step;
                assert(room == candidate_at(draws, 4 * attempts));
                assert forall|j: nat| j <= attempts implies #[trigger] placed(init, draws, j)
                    == placed(init, earlier, j) by {
                    lemma_placed_agrees(init, draws, earlier, j);
                }
                assert(placed(init, draws, attempts as nat) == held);
                assert forall|j: int| 0 <= j < attempts + 1 implies #[trigger] candidate_in_range(
                    draws,
                    4 * j,
                    self.map.width as int,
                    self.map.height as int,
                ) by {
                    if j < attempts {
                        assert(candidate_in_range(
                            earlier,
                            4 * j,
                            self.map.width as int,
                            self.map.height as int,
                        ));
                    }
                }
            }
            let placed = self.place_room(&room);
            proof {
                if placed {
                    assert forall|px: int, py: int|
                        old(self).map.contains(px, py) implies #[trigger] self.map.tile(px, py)
                        == if covered_from(self.rooms@, init.len() as int, px, py) {
                        TileType::Floor
                    } else {
                        old(self).map.tile(px, py)
                    } by {
                        if room.covers(px, py) {
                            assert(self.rooms@[held.len() as int].covers(px, py));
                        }
                        if covered_from(held, init.len() as int, px, py) {
                            let i = choose|i: int|
                                init.len() <= i < held.len() && (#[trigger] held[i]).covers(px, py);
                            assert(self.rooms@[i].covers(px, py));
                        }
                    }
                }
            }
            attempts += 1;
        }
        proof {
            lemma_served_records(
                start,
                *rng,
                room_requests(self.map.width, self.map.height, attempts as nat),
            );
            lemma_placed_grows(init, draws, 0, attempts as nat);
        }
        if self.rooms.len() < num_rooms {
            Err(BuildError::PlacementExhausted)
        } else {
            Ok(())
        }
    }

    /// Turns to floor the tiles of column `x` from row `y1` to row `y2`,
    /// both included, in either order. Points outside the grid are skipped.
    pub fn apply_vertical_tunnel(&mut self, y1: i32, y2: i32, x: i32)
        requires
            old(self).map.wf(),
        ensures
            final(self).map.wf(),
            final(self).map.width == old(self).map.width,
            final(self).map.height == old(self).map.height,
            final(self).rooms@ == old(self).rooms@,
            final(self).player_start == old(self).player_start,
            forall|px: int, py: int| #![trigger final(self).map.tile(px, py)]
                old(self).map.contains(px, py) ==> final(self).map.tile(px, py)
                    == if on_vertical_tunnel(y1 as int, y2 as int, x as int, px, py) {
                    TileType::Floor
                } else {
                    old(self).map.tile(px, py)
                },
    {
        let low: i64 = if y1 <= y2 {
            y1 as i64
        } else {
            y2 as i64
        };
        let high: i64 = if y1 <= y2 {
            y2 as i64
        } else {
            y1 as i64
        };
        let mut y: i64 = low;
        while y <= high
            invariant
                low <= y <= high + 1,
                i32::MIN <= low <= high <= i32::MAX,
                self.map.wf(),
                self.map.width == old(self).map.width,
                self.map.height == old(self).map.height,
                self.rooms@ == old(self).rooms@,
                self.player_start == old(self).player_start,
                forall|px: int, py: int| #![trigger self.map.tile(px, py)]
                    old(self).map.contains(px, py) ==> self.map.tile(px, py) == if px == x && low
                        <= py < y {
                        TileType::Floor
                    } else {
                        old(self).map.tile(px, py)
                    },
            decreases high + 1 - y,
        {
            self.map.set_tile(Point::new(x, y as i32), TileType::Floor);
            y += 1;
        }
    }

    /// Turns to floor the tiles of row `y` from column `x1` to column `x2`,
    /// both included, in either order. Points outside the grid are skipped.
    pub fn apply_horizontal_tunnel(&mut self, x1: i32, x2: i32, y: i32)
        requires
            old(self).map.wf(),
        ensures
            final(self).map.wf(),
            final(self).map.width == old(self).map.width,
            final(self).map.height == old(self).map.height,
            final(self).rooms@ == old(self).rooms@,
            final(self).player_start == old(self).player_start,
            forall|px: int, py: int| #![trigger final(self).map.tile(px, py)]
                old(self).map.contains(px, py) ==> final(self).map.tile(px, py)
                    == if on_horizontal_tunnel(x1 as int, x2 as int, y as int, px, py) {
                    TileType::Floor
                } else {
                    old(self).map.tile(px, py)
                },
    {
        let low: i64 = if x1 <= x2 {
            x1 as i64
        } else {
            x2 as i64
        };
        let high: i64 = if x1 <= x2 {
            x2 as i64
        } else {
            x1 as i64
        };
        let mut x: i64 = low;
        while x <= high
            invariant
                low <= x <= high + 1,
                i32::MIN <= low <= high <= i32::MAX,
                self.map.wf(),
                self.map.width == old(self).map.width,
                self.map.height == old(self).map.height,
                self.rooms@ == old(self).rooms@,
                self.player_start == old(self).player_start,
                forall|px: int, py: int| #![trigger self.map.tile(px, py)]
                    old(self).map.contains(px, py) ==> self.map.tile(px, py) == if py == y && low
                        <= px < x {
                        TileType::Floor
                    } else {
                        old(self).map.tile(px, py)
                    },
            decreases high + 1 - x,
        {
            self.map.set_tile(Point::new(x as i32, y), TileType::Floor);
            x += 1;
        }
    }

    /// Carves the L-shaped corridor from `prev` to `cur`. Where `flip` is 1
    /// it leaves `prev` vertically and reaches `cur` horizontally; otherwise
    /// it leaves horizontally and arrives vertically.
    pub fn link(&mut self, prev: Point, cur: Point, flip: i32)
        requires
            old(self).map.wf(),
        ensures
            final(self).map.wf(),
            final(self).map.width == old(self).map.width,
            final(self).map.height == old(self).map.height,
            final(self).rooms@ == old(self).rooms@,
            final(self).player_start == old(self).player_start,
            forall|x: int, y: int| #![trigger final(self).map.tile(x, y)]
                old(self).map.contains(x, y) ==> final(self).map.tile(x, y) == if on_link(
                    prev,
                    cur,
                    flip,
                    x,
                    y,
                ) {
                    TileType::Floor
                } else {
                    old(self).map.tile(x, y)
                },
            old(self).map.contains(prev.x as int, prev.y as int) && old(self).map.contains(
                cur.x as int,
                cur.y as int,
            ) ==> connected(final(self).map, prev, cur),
    {
        if flip == 1 {
            self.apply_vertical_tunnel(prev.y, cur.y, prev.x);
            self.apply_horizontal_tunnel(prev.x, cur.x, cur.y);
        } else {
            self.apply_horizontal_tunnel(prev.x, cur.x, prev.y);
            self.apply_vertical_tunnel(prev.y, cur.y, cur.x);
        }
        proof {
            if self.map.contains(prev.x as int, prev.y as int) && self.map.contains(
                cur.x as int,
                cur.y as int,
            ) {
                lemma_link_connected(self.map, prev, cur, flip);
            }
        }
    }

    /// Links the rooms in a chain: each room of the chain, from the second
    /// on, gets an L-shaped corridor to the one before it, and a draw from
    /// `rng` decides which way round the corridor goes. The rooms themselves
    /// keep their order.
    #[verifier::rlimit(40)]
    pub fn build_corridors<R: RandomSource>(&mut self, rng: &mut R)
        requires
            old(self).map.wf(),
        ensures
            ({
                let flips = drawn_since(old(rng).drawn(), final(rng).drawn());
                let chain = sorted_by_center(old(self).rooms@);
                &&& final(rng).asked() == old(rng).asked() + flip_requests(flips.len())
                &&& final(rng).drawn() == old(rng).drawn() + flips
                &&& served(*old(rng), *final(rng), flip_requests(flips.len()))
                &&& flips.len() == if old(self).rooms@.len() == 0 {
                    0
                } else {
                    old(self).rooms@.len() - 1
                }
                &&& forall|i: int| 0 <= i < flips.len() ==> 0 <= #[trigger] flips[i] < 2
                &&& final(self).map.wf()
                &&& final(self).map.width == old(self).map.width
                &&& final(self).map.height == old(self).map.height
                &&& final(self).rooms@ == old(self).rooms@
                &&& final(self).player_start == old(self).player_start
                &&& forall|x: int, y: int| #![trigger final(self).map.tile(x, y)]
                    old(self).map.contains(x, y) ==> final(self).map.tile(x, y) == if on_corridors(
                        chain,
                        flips,
                        flips.len() as int,
                        x,
                        y,
                    ) {
                        TileType::Floor
                    } else {
                        old(self).map.tile(x, y)
                    }
                &&& forall|i: int|
                    1 <= i < chain.len() && old(self).map.contains(
                        chain[i - 1].midpoint().x as int,
                        chain[i - 1].midpoint().y as int,
                    ) && old(self).map.contains(
                        chain[i].midpoint().x as int,
                        chain[i].midpoint().y as int,
                    ) ==> connected(
                        final(self).map,
                        chain[i - 1].midpoint(),
                        #[trigger] chain[i].midpoint(),
                    )
            }),
    {
        let chain = sort_by_center(&self.rooms);
        let ghost start = *rng;
        let ghost mut flips: Seq<i32> = Seq::empty();
        proof {
            lemma_sorted_by_center(self.rooms@);
            lemma_served_nothing(start);
            assert(flip_requests(0) =~= Seq::<Request>::empty());
            assert(drawn_since(start.drawn(), rng.drawn()) =~= flips);
        }
        let mut i: usize = 1;
        while i < chain.len()
            invariant
                1 <= i,
                i <= chain.len() || i == 1,
                old(self).map.wf(),
                chain@.len() == old(self).rooms@.len(),
                chain@ == sorted_by_center(old(self).rooms@),
                start == *old(rng),
                served(start, *rng, flip_requests(flips.len())),
                flips == drawn_since(start.drawn(), rng.drawn()),
                flips.len() == i - 1,
                forall|k: int| 0 <= k < flips.len() ==> 0 <= #[trigger] flips[k] < 2,
                self.map.wf(),
                self.map.width == old(self).map.width,
                self.map.height == old(self).map.height,
                self.rooms@ == old(self).rooms@,
                self.player_start == old(self).player_start,
                forall|x: int, y: int| #![trigger self.map.tile(x, y)]
                    old(self).map.contains(x, y) ==> self.map.tile(x, y) == if on_corridors(
                        chain@,
                        flips,
                        i - 1,
                        x,
                        y,
                    ) {
                        TileType::Floor
                    } else {
                        old(self).map.tile(x, y)
                    },
            decreases chain.len() - i,
        {
            let prev = chain[i - 1].center();
            let new = chain[i].center();
            let ghost here = *rng;
            let flip: i32 = rng.range(0, 2);
            let ghost earlier = flips;
            proof {
                lemma_served_one(here, *rng, flip_request(), flip);
                lemma_served_then(
                    start,
                    here,
                    *rng,
                    flip_requests(earlier.len()),
                    seq![flip_request()],
                );
                assert(flip_requests(earlier.len()) + seq![flip_request()] =~= flip_requests(
                    earlier.len() + 1,
                ));
                flips = earlier.push(flip);
            }
            self.link(prev, new, flip);
            proof {
                assert forall|x: int, y: int|
                    old(self).map.contains(x, y) implies #[trigger] self.map.tile(x, y)
                    == if on_corridors(chain@, flips, i as int, x, y) {
                    TileType::Floor
                } else {
                    old(self).map.tile(x, y)
                } by {
                    lemma_corridors_extend(chain@, earlier, flip, i as int, x, y);
                }
            }
            i += 1;
        }
        proof {
            lemma_served_records(start, *rng, flip_requests(flips.len()));
            assert forall|k: int|
                1 <= k < chain@.len() && self.map.contains(
                    chain@[k - 1].midpoint().x as int,
                    chain@[k - 1].midpoint().y as int,
                ) && self.map.contains(
                    chain@[k].midpoint().x as int,
                    chain@[k].midpoint().y as int,
                ) implies connected(
                self.map,
                chain@[k - 1].midpoint(),
                #[trigger] chain@[k].midpoint(),
            ) by {
                lemma_corridor_connects(self.map, chain@, flips, k);
            }
        }
    }
}

} // verus!
