use std::collections::HashMap;

use rand::rngs::SmallRng;
use vstd::prelude::*;

use crate::coordinates::{offset_q, Coordinates, COORD_LIMIT};
use crate::direction::Direction;
use crate::rng::{rng_from_seed, rng_ratio};
use crate::tile::Tile;

verus! {

broadcast use vstd::std_specs::hash::group_hash_axioms;

/// Packing of axial coordinates into one hash key: both components
/// shifted into non-negative range and laid side by side.
pub open spec fn coord_key(c: Coordinates) -> u64 {
    ((c.q + 0x8000_0000) * 0x1_0000_0000 + (c.r + 0x8000_0000)) as u64
}

/// Distinct coordinates pack into distinct keys.
pub proof fn lemma_coord_key_injective(a: Coordinates, b: Coordinates)
    requires
        coord_key(a) == coord_key(b),
    ensures
        a == b,
{
    let ai = (a.q + 0x8000_0000) * 0x1_0000_0000 + (a.r + 0x8000_0000);
    let bi = (b.q + 0x8000_0000) * 0x1_0000_0000 + (b.r + 0x8000_0000);
    assert(0 <= ai < 0x1_0000_0000_0000_0000 && 0 <= bi < 0x1_0000_0000_0000_0000);
    assert(ai == bi);
}

/// The coordinates whose hash key is `k`: the inverse packing.
pub open spec fn key_coord(k: u64) -> Coordinates {
    Coordinates {
        q: (k / 0x1_0000_0000 - 0x8000_0000) as i32,
        r: (k % 0x1_0000_0000 - 0x8000_0000) as i32,
    }
}

/// Packing and unpacking of coordinates into hash keys are mutually
/// inverse bijections.
pub proof fn lemma_key_coord_bijective(k: u64, c: Coordinates)
    ensures
        coord_key(key_coord(k)) == k,
        key_coord(coord_key(c)) == c,
{
    vstd::arithmetic::div_mod::lemma_fundamental_div_mod(k as int, 0x1_0000_0000);
    vstd::arithmetic::div_mod::lemma_mod_division_less_than_divisor(k as int, 0x1_0000_0000);
    assert(0 <= k as int / 0x1_0000_0000 < 0x1_0000_0000) by {
        assert(0x1_0000_0000 * (k as int / 0x1_0000_0000) <= k as int) by (nonlinear_arith)
            requires
                0 <= k as int % 0x1_0000_0000,
                k as int == 0x1_0000_0000 * (k as int / 0x1_0000_0000) + k as int % 0x1_0000_0000,
        ;
    }
    let ci = (c.q + 0x8000_0000) * 0x1_0000_0000 + (c.r + 0x8000_0000);
    assert(0 <= ci < 0x1_0000_0000_0000_0000);
    assert(coord_key(c) as int == ci);
    vstd::arithmetic::div_mod::lemma_fundamental_div_mod_converse(
        ci,
        0x1_0000_0000,
        c.q + 0x8000_0000,
        c.r + 0x8000_0000,
    );
}

/// Unpack a hash key into the coordinates of its hex.
pub(crate) fn key_coord_exec(k: u64) -> (c: Coordinates)
    ensures
        c == key_coord(k),
{
    let hi = k / 0x1_0000_0000;
    let lo = k % 0x1_0000_0000;
    Coordinates { q: ((hi as i64) - 0x8000_0000) as i32, r: ((lo as i64) - 0x8000_0000) as i32 }
}

/// Pack the coordinates of a hex into its hash key.
pub(crate) fn coord_key_exec(c: Coordinates) -> (k: u64)
    ensures
        k == coord_key(c),
{
    let hi = (c.q as i64) + 0x8000_0000;
    let lo = (c.r as i64) + 0x8000_0000;
    (hi as u64) * 0x1_0000_0000 + (lo as u64)
}

/// Whether the offset grid index `(x, y)` belongs to the generated
/// board: a 15 by 15 block, thinned by the last column of every odd row
/// to square the outline off, and by four corner positions to match the
/// canonical board silhouette.
pub open spec fn in_footprint(x: int, y: int) -> bool {
    &&& 0 <= x < 15
    &&& 0 <= y < 15
    &&& !(x == 14 && y % 2 == 1)
    &&& !((x == 0 || x == 14) && (y == 4 || y == 10))
}

/// The axial coordinates of an offset grid index.
pub open spec fn offset_coord(x: int, y: int) -> Coordinates {
    Coordinates { q: offset_q(x, y) as i32, r: y as i32 }
}

/// The sequence of neighbours of `c` that exist in `m`, among the first
/// `i` directions in clockwise order.
pub open spec fn neighbours_upto(m: Map<Coordinates, Tile>, c: Coordinates, i: int) -> Seq<
    Coordinates,
>
    decreases i,
{
    if i <= 0 {
        Seq::empty()
    } else {
        let n = c.spec_step(Direction::of_index(i - 1));
        if m.dom().contains(n) {
            neighbours_upto(m, c, i - 1).push(n)
        } else {
            neighbours_upto(m, c, i - 1)
        }
    }
}

/// The neighbours of `c` that exist in `m`, in clockwise direction order.
pub open spec fn neighbour_list(m: Map<Coordinates, Tile>, c: Coordinates) -> Seq<Coordinates> {
    neighbours_upto(m, c, 6)
}

proof fn lemma_neighbours_upto_props(m: Map<Coordinates, Tile>, c: Coordinates, i: int)
    requires
        0 <= i <= 6,
    ensures
        forall|j: int|
            0 <= j < neighbours_upto(m, c, i).len() ==> m.dom().contains(
                #[trigger] neighbours_upto(m, c, i)[j],
            ) && exists|d: Direction| neighbours_upto(m, c, i)[j] == c.spec_step(d),
        forall|d: Direction|
            (#[trigger] d.index()) < i && m.dom().contains(c.spec_step(d)) ==> neighbours_upto(
                m,
                c,
                i,
            ).contains(c.spec_step(d)),
    decreases i,
{
    if i > 0 {
        lemma_neighbours_upto_props(m, c, i - 1);
        let dd = Direction::of_index(i - 1);
        let n = c.spec_step(dd);
        assert forall|d: Direction|
            (#[trigger] d.index()) < i && m.dom().contains(c.spec_step(d)) implies neighbours_upto(
            m,
            c,
            i,
        ).contains(c.spec_step(d)) by {
            if d.index() < i - 1 {
                let prev = neighbours_upto(m, c, i - 1);
                let j = choose|j: int| 0 <= j < prev.len() && prev[j] == c.spec_step(d);
                assert(neighbours_upto(m, c, i)[j] == c.spec_step(d));
            } else {
                assert(d == dd);
                assert(m.dom().contains(n));
                let s = neighbours_upto(m, c, i);
                assert(s[s.len() - 1] == n);
            }
        }
    }
}

/// Every listed neighbour exists on the board and is adjacent to the
/// center; conversely, every direction whose step exists on the board
/// contributes its step to the list.
pub proof fn lemma_neighbour_list_props(m: Map<Coordinates, Tile>, c: Coordinates)
    ensures
        forall|j: int|
            0 <= j < neighbour_list(m, c).len() ==> m.dom().contains(
                #[trigger] neighbour_list(m, c)[j],
            ) && exists|d: Direction| neighbour_list(m, c)[j] == c.spec_step(d),
        forall|d: Direction|
            m.dom().contains(#[trigger] c.spec_step(d)) ==> neighbour_list(m, c).contains(
                c.spec_step(d),
            ),
{
    lemma_neighbours_upto_props(m, c, 6);
    assert forall|d: Direction|
        m.dom().contains(#[trigger] c.spec_step(d)) implies neighbour_list(m, c).contains(
        c.spec_step(d),
    ) by {
        assert(d.index() < 6);
    }
}

/// Distinct footprint indices map to distinct axial coordinates.
proof fn lemma_offset_coord_injective(x1: int, y1: int, x2: int, y2: int)
    requires
        0 <= x1 < 15 && 0 <= y1 < 15,
        0 <= x2 < 15 && 0 <= y2 < 15,
        offset_coord(x1, y1) == offset_coord(x2, y2),
    ensures
        x1 == x2 && y1 == y2,
{
    assert(0 <= (y1 - y1 % 2) / 2 <= 7);
    assert(0 <= (y2 - y2 % 2) / 2 <= 7);
}

/// `(x, y)` was handled before the generation loops reached `(cx, cy)`,
/// columns outermost.
pub open spec fn gen_done(x: int, y: int, cx: int, cy: int) -> bool {
    x < cx || (x == cx && y < cy)
}

/// A game board: the set of its tiles, keyed by their coordinates.
#[derive(Debug)]
pub struct Board {
    tiles: HashMap<u64, Tile>,
}

impl View for Board {
    type V = Map<Coordinates, Tile>;

    /// A board is read as the map from coordinates to tiles.
    closed spec fn view(&self) -> Map<Coordinates, Tile> {
        Map::new(
            |c: Coordinates| self.tiles@.dom().contains(coord_key(c)),
            |c: Coordinates| self.tiles@[coord_key(c)],
        )
    }
}

impl Board {
    /// Every tile sits within the coordinate range the geometric queries
    /// accept and records its own coordinates. Constructors establish
    /// this well-formedness and mutations preserve it.
    pub open spec fn wf(self) -> bool {
        forall|c: Coordinates| #[trigger]
            self@.dom().contains(c) ==> -COORD_LIMIT <= c.q <= COORD_LIMIT && -COORD_LIMIT <= c.r
                <= COORD_LIMIT && self@[c].coordinates == c
    }

    /// The raw key set of the tile map.
    pub(crate) closed spec fn key_set(self) -> Set<u64> {
        self.tiles@.dom()
    }

    /// The key set is finite and mirrors the board's coordinate domain.
    pub(crate) proof fn lemma_key_set(&self)
        ensures
            self.key_set().finite(),
            forall|c: Coordinates|
                self@.dom().contains(c) <==> self.key_set().contains(#[trigger] coord_key(c)),
            forall|k: u64| #[trigger]
                self.key_set().contains(k) ==> self@.dom().contains(key_coord(k)),
    {
        assert forall|k: u64| #[trigger]
            self.key_set().contains(k) implies self@.dom().contains(key_coord(k)) by {
            lemma_key_coord_bijective(k, key_coord(k));
        }
    }

    /// Get a copy of the tile at the given coordinates, or nothing when
    /// the coordinates lie outside the board.
    pub fn get(&self, coords: Coordinates) -> (r: Option<Tile>)
        ensures
            r == if self@.dom().contains(coords) {
                Some(self@[coords])
            } else {
                None::<Tile>
            },
    {
        let k = coord_key_exec(coords);
        match self.tiles.get(&k) {
            Some(t) => Some(*t),
            None => None,
        }
    }

    /// Mark the tile at the given coordinates as free; a no-op when the
    /// coordinates lie outside the board.
    pub fn free(&mut self, coords: Coordinates)
        ensures
            old(self)@.dom().contains(coords) ==> final(self)@ == old(self)@.insert(
                coords,
                Tile { coordinates: old(self)@[coords].coordinates, free: true },
            ),
            !old(self)@.dom().contains(coords) ==> final(self)@ == old(self)@,
            old(self).wf() ==> final(self).wf(),
    {
        self.set_free(coords, true)
    }

    /// Mark the tile at the given coordinates as filled; a no-op when
    /// the coordinates lie outside the board.
    pub fn fill(&mut self, coords: Coordinates)
        ensures
            old(self)@.dom().contains(coords) ==> final(self)@ == old(self)@.insert(
                coords,
                Tile { coordinates: old(self)@[coords].coordinates, free: false },
            ),
            !old(self)@.dom().contains(coords) ==> final(self)@ == old(self)@,
            old(self).wf() ==> final(self).wf(),
    {
        self.set_free(coords, false)
    }

    /// Set the `free` flag of the tile at the given coordinates.
    fn set_free(&mut self, coords: Coordinates, value: bool)
        ensures
            old(self)@.dom().contains(coords) ==> final(self)@ == old(self)@.insert(
                coords,
                Tile { coordinates: old(self)@[coords].coordinates, free: value },
            ),
            !old(self)@.dom().contains(coords) ==> final(self)@ == old(self)@,
            old(self).wf() ==> final(self).wf(),
    {
        let k = coord_key_exec(coords);
        let updated = match self.tiles.get(&k) {
            Some(t) => Some(Tile { coordinates: t.coordinates, free: value }),
            None => None,
        };
        match updated {
            Some(t) => {
                self.tiles.insert(k, t);
                proof {
                    assert forall|c2: Coordinates|
                        #![auto]
                        c2 != coords implies coord_key(c2) != coord_key(coords) by {
                        if coord_key(c2) == coord_key(coords) {
                            lemma_coord_key_injective(c2, coords);
                        }
                    }
                    assert(self@ =~= old(self)@.insert(
                        coords,
                        Tile { coordinates: old(self)@[coords].coordinates, free: value },
                    ));
                }
            },
            None => {
                proof {
                    assert(self@ =~= old(self)@);
                }
            },
        }
        proof {
            if old(self).wf() {
                assert forall|c: Coordinates| #[trigger]
                    self@.dom().contains(c) implies -COORD_LIMIT <= c.q <= COORD_LIMIT
                    && -COORD_LIMIT <= c.r <= COORD_LIMIT && self@[c].coordinates == c by {
                    assert(old(self)@.dom().contains(c));
                }
            }
        }
    }

    /// State of the tile map while generation stands at column `cx`,
    /// row `cy`: exactly the footprint indices already handled have
    /// tiles, each tile records its coordinates, the origin tile is
    /// filled, and an all-or-nothing probability decides every other
    /// tile's flag.
    pub open spec fn gen_invariant(
        m: Map<Coordinates, Tile>,
        num: int,
        den: int,
        cx: int,
        cy: int,
    ) -> bool {
        &&& forall|x: int, y: int|
            in_footprint(x, y) && gen_done(x, y, cx, cy) ==> m.dom().contains(
                #[trigger] offset_coord(x, y),
            )
        &&& forall|c: Coordinates| #[trigger]
            m.dom().contains(c) ==> exists|x: int, y: int|
                in_footprint(x, y) && gen_done(x, y, cx, cy) && c == offset_coord(x, y)
        &&& forall|x: int, y: int|
            in_footprint(x, y) && gen_done(x, y, cx, cy) ==> (#[trigger] m[offset_coord(
                x,
                y,
            )]).coordinates == offset_coord(x, y)
        &&& (gen_done(0, 0, cx, cy) ==> !m[offset_coord(0, 0)].free)
        &&& (num == den ==> forall|x: int, y: int|
            in_footprint(x, y) && gen_done(x, y, cx, cy) && !(x == 0 && y == 0) ==> (
            #[trigger] m[offset_coord(x, y)]).free)
        &&& (num == 0 ==> forall|x: int, y: int|
            in_footprint(x, y) && gen_done(x, y, cx, cy) ==> !(#[trigger] m[offset_coord(
                x,
                y,
            )]).free)
    }

    /// Inserting the tile for the footprint index the loops stand at
    /// advances the generation invariant by one row.
    proof fn lemma_gen_step(
        pre: Map<Coordinates, Tile>,
        post: Map<Coordinates, Tile>,
        num: int,
        den: int,
        cx: int,
        cy: int,
        is_free: bool,
    )
        requires
            0 <= cx < 15 && 0 <= cy < 15,
            in_footprint(cx, cy),
            Board::gen_invariant(pre, num, den, cx, cy),
            post == pre.insert(
                offset_coord(cx, cy),
                Tile { coordinates: offset_coord(cx, cy), free: is_free },
            ),
            num == den && !(cx == 0 && cy == 0) ==> is_free,
            num == 0 ==> !is_free,
            cx == 0 && cy == 0 ==> !is_free,
        ensures
            Board::gen_invariant(post, num, den, cx, cy + 1),
    {
        let nc = offset_coord(cx, cy);
        assert forall|x: int, y: int|
            0 <= x < 15 && 0 <= y < 15 && !(x == cx && y == cy) implies offset_coord(x, y)
            != nc by {
            if offset_coord(x, y) == nc {
                lemma_offset_coord_injective(x, y, cx, cy);
            }
        }
        assert forall|c: Coordinates| #[trigger]
            post.dom().contains(c) implies exists|x: int, y: int|
            in_footprint(x, y) && gen_done(x, y, cx, cy + 1) && c == offset_coord(x, y) by {
            if c == nc {
                assert(in_footprint(cx, cy) && gen_done(cx, cy, cx, cy + 1) && c == offset_coord(
                    cx,
                    cy,
                ));
            } else {
                assert(pre.dom().contains(c));
                let (x, y) = choose|x: int, y: int|
                    in_footprint(x, y) && gen_done(x, y, cx, cy) && c == offset_coord(x, y);
                assert(in_footprint(x, y) && gen_done(x, y, cx, cy + 1) && c == offset_coord(x, y));
            }
        }
    }

    /// A skipped index advances the generation invariant by one row.
    proof fn lemma_gen_skip(m: Map<Coordinates, Tile>, num: int, den: int, cx: int, cy: int)
        requires
            0 <= cx < 15 && 0 <= cy < 15,
            !in_footprint(cx, cy),
            Board::gen_invariant(m, num, den, cx, cy),
        ensures
            Board::gen_invariant(m, num, den, cx, cy + 1),
    {
        assert forall|c: Coordinates| #[trigger]
            m.dom().contains(c) implies exists|x: int, y: int|
            in_footprint(x, y) && gen_done(x, y, cx, cy + 1) && c == offset_coord(x, y) by {
            let (x, y) = choose|x: int, y: int|
                in_footprint(x, y) && gen_done(x, y, cx, cy) && c == offset_coord(x, y);
            assert(in_footprint(x, y) && gen_done(x, y, cx, cy + 1) && c == offset_coord(x, y));
        }
    }

    /// Finishing a column is the same as standing at the top of the next.
    proof fn lemma_gen_next_column(m: Map<Coordinates, Tile>, num: int, den: int, cx: int)
        requires
            0 <= cx < 15,
            Board::gen_invariant(m, num, den, cx, 15),
        ensures
            Board::gen_invariant(m, num, den, cx + 1, 0),
    {
        assert forall|c: Coordinates| #[trigger]
            m.dom().contains(c) implies exists|x: int, y: int|
            in_footprint(x, y) && gen_done(x, y, cx + 1, 0) && c == offset_coord(x, y) by {
            let (x, y) = choose|x: int, y: int|
                in_footprint(x, y) && gen_done(x, y, cx, 15) && c == offset_coord(x, y);
            assert(in_footprint(x, y) && gen_done(x, y, cx + 1, 0) && c == offset_coord(x, y));
        }
    }

    /// The generation invariant at the end of both loops gives the
    /// contract of `Board::new`.
    proof fn lemma_gen_complete(&self, num: int, den: int)
        requires
            Board::gen_invariant(self@, num, den, 15, 0),
        ensures
            self.wf(),
            forall|x: int, y: int|
                in_footprint(x, y) ==> self@.dom().contains(#[trigger] offset_coord(x, y)),
            forall|c: Coordinates| #[trigger]
                self@.dom().contains(c) ==> exists|x: int, y: int|
                    in_footprint(x, y) && c == offset_coord(x, y),
            !self@[offset_coord(0, 0)].free,
            num == den ==> forall|c: Coordinates| #[trigger]
                self@.dom().contains(c) && c != offset_coord(0, 0) ==> self@[c].free,
            num == 0 ==> forall|c: Coordinates| #[trigger]
                self@.dom().contains(c) ==> !self@[c].free,
    {
        let m = self@;
        assert forall|c: Coordinates| #[trigger]
            m.dom().contains(c) implies (exists|x: int, y: int|
            in_footprint(x, y) && c == offset_coord(x, y)) && -COORD_LIMIT <= c.q <= COORD_LIMIT
            && -COORD_LIMIT <= c.r <= COORD_LIMIT && m[c].coordinates == c && (num == den && c
            != offset_coord(0, 0) ==> m[c].free) && (num == 0 ==> !m[c].free) by {
            let (x, y) = choose|x: int, y: int|
                in_footprint(x, y) && gen_done(x, y, 15, 0) && c == offset_coord(x, y);
            assert(in_footprint(x, y) && c == offset_coord(x, y));
            assert(0 <= (y - y % 2) / 2 <= 7);
            if num == den && c != offset_coord(0, 0) {
                if x == 0 && y == 0 {
                    assert(c == offset_coord(0, 0));
                }
                assert(m[offset_coord(x, y)].free);
            }
        }
        assert(gen_done(0, 0, 15, 0));
    }

    /// List the coordinates of all existing neighbouring tiles, in
    /// clockwise direction order, regardless of their occupancy.
    pub fn neighbours(&self, coords: Coordinates) -> (r: Vec<Coordinates>)
        requires
            i32::MIN < coords.q < i32::MAX,
            i32::MIN < coords.r < i32::MAX,
        ensures
            r@ == neighbour_list(self@, coords),
    {
        let mut out: Vec<Coordinates> = Vec::new();
        let mut i: i32 = 0;
        while i < 6
            invariant
                0 <= i <= 6,
                i32::MIN < coords.q < i32::MAX,
                i32::MIN < coords.r < i32::MAX,
                out@ == neighbours_upto(self@, coords, i as int),
            decreases 6 - i,
        {
            let d = Direction::from_index(i);
            proof {
                assert(i as int % 6 == i);
                assert(d == Direction::of_index(i as int));
            }
            let n = coords.add_direction(d);
            if self.get(n).is_some() {
                out.push(n);
            }
            i = i + 1;
        }
        out
    }

    /// Generate the canonical board: one tile per footprint index, each
    /// free unless a draw with probability
    /// `free_numerator / free_denominator` decides otherwise, and the
    /// tile at the offset origin always filled.
    pub fn new(seed: u64, free_numerator: u32, free_denominator: u32) -> (b: Board)
        requires
            0 < free_denominator,
            free_numerator <= free_denominator,
        ensures
            b.wf(),
            forall|x: int, y: int|
                in_footprint(x, y) ==> b@.dom().contains(#[trigger] offset_coord(x, y)),
            forall|c: Coordinates| #[trigger]
                b@.dom().contains(c) ==> exists|x: int, y: int|
                    in_footprint(x, y) && c == offset_coord(x, y),
            !b@[offset_coord(0, 0)].free,
            free_numerator == free_denominator ==> forall|c: Coordinates| #[trigger]
                b@.dom().contains(c) && c != offset_coord(0, 0) ==> b@[c].free,
            free_numerator == 0 ==> forall|c: Coordinates| #[trigger]
                b@.dom().contains(c) ==> !b@[c].free,
    {
        let mut rng: SmallRng = rng_from_seed(seed);
        let mut board = Board { tiles: HashMap::new() };
        proof {
            assert(board@ =~= Map::<Coordinates, Tile>::empty());
        }
        let mut x: i32 = 0;
        while x < 15
            invariant
                0 <= x <= 15,
                0 < free_denominator,
                free_numerator <= free_denominator,
                Board::gen_invariant(board@, free_numerator as int, free_denominator as int, x as int, 0),
            decreases 15 - x,
        {
            let mut y: i32 = 0;
            while y < 15
                invariant
                    0 <= x < 15,
                    0 <= y <= 15,
                    0 < free_denominator,
                    free_numerator <= free_denominator,
                    Board::gen_invariant(board@, free_numerator as int, free_denominator as int, x as int, y as int),
                decreases 15 - y,
            {
                let skip_last_column = x == 14 && y % 2 == 1;
                let skip_corner = (x == 0 || x == 14) && (y == 4 || y == 10);
                if !skip_last_column && !skip_corner {
                    let c = Coordinates::from_offset(x, y);
                    let mut is_free = rng_ratio(&mut rng, free_numerator, free_denominator);
                    if x == 0 && y == 0 {
                        is_free = false;
                    }
                    let ghost pre = board@;
                    let k = coord_key_exec(c);
                    board.tiles.insert(k, Tile::new(c, is_free));
                    proof {
                        assert(c == offset_coord(x as int, y as int));
                        assert(board@ =~= pre.insert(c, Tile { coordinates: c, free: is_free }))
                            by {
                            assert forall|c2: Coordinates|
                                #![auto]
                                c2 != c implies coord_key(c2) != coord_key(c) by {
                                if coord_key(c2) == coord_key(c) {
                                    lemma_coord_key_injective(c2, c);
                                }
                            }
                        }
                        Board::lemma_gen_step(
                            pre,
                            board@,
                            free_numerator as int,
                            free_denominator as int,
                            x as int,
                            y as int,
                            is_free,
                        );
                    }
                } else {
                    proof {
                        Board::lemma_gen_skip(
                            board@,
                            free_numerator as int,
                            free_denominator as int,
                            x as int,
                            y as int,
                        );
                    }
                }
                y = y + 1;
            }
            proof {
                Board::lemma_gen_next_column(
                    board@,
                    free_numerator as int,
                    free_denominator as int,
                    x as int,
                );
            }
            x = x + 1;
        }
        proof {
            board.lemma_gen_complete(free_numerator as int, free_denominator as int);
        }
        board
    }
}

} // verus!
