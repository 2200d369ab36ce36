//! The street map: placed blocks, the chunk grid that indexes them, and the
//! directed edges between them.

use crate::grid::chunk_span;
use crate::grid::column_of;
use crate::grid::in_grid;
use crate::grid::is_neighborhood;
use crate::grid::lemma_cell_coordinates;
use crate::grid::lemma_cell_in_grid;
use crate::grid::lemma_chunk_of_in_grid;
use crate::grid::lemma_coordinates_in_grid;
use crate::grid::lemma_neighborhood_scan;
use crate::grid::row_of;
use crate::grid::scan_contains;
use crate::grid::CHUNK_SIZE;
use crate::model::chain;
use crate::model::StreetmapView;
use vstd::prelude::*;

verus! {

pub type BlockIndex = usize;

pub type EdgeIndex = usize;

pub type ChunkIndex = usize;

/// Why an operation on a map was refused.
#[derive(Debug, Clone, Copy, PartialEq, Eq)]
pub enum MapError {
    /// A coordinate lies outside the area of the map.
    OutOfArea,
    /// A block index names no block of the map.
    NoSuchBlock,
    /// A chunk index names no chunk of the grid.
    NoSuchChunk,
    /// The list of candidates to choose from is empty.
    NoCandidates,
}

/// One square tile of the grid and the blocks that lie in it.
#[derive(Debug, PartialEq, Eq)]
pub struct Chunk {
    pub center_x: u16,
    pub center_y: u16,
    pub chunk_x: usize,
    pub chunk_y: usize,
    pub blocks: Vec<BlockIndex>,
}

/// A placed block: where it is, which chunk holds it, and the most recent of
/// its outgoing edges.
#[derive(Debug, Clone, Copy, PartialEq, Eq)]
pub struct BlockData {
    pub x: u16,
    pub y: u16,
    pub chunk_index: ChunkIndex,
    pub first_edge: Option<EdgeIndex>,
}

/// A directed edge: the block it leads to, and the edge that was added to the
/// same source just before it.
#[derive(Debug, Clone, Copy, PartialEq, Eq)]
pub struct EdgeData {
    pub target: BlockIndex,
    pub next_edge: Option<EdgeIndex>,
}

/// A rectangular area `[0, width) x [0, height)` with the blocks placed in
/// it. Coordinates are whole numbers of units; a chunk is `CHUNK_SIZE` units
/// wide and high.
#[derive(Debug)]
pub struct Streetmap {
    blocks: Vec<BlockData>,
    edges: Vec<EdgeData>,
    width: u16,
    height: u16,
    x_chunks: usize,
    y_chunks: usize,
    chunks: Vec<Chunk>,
}

impl View for Streetmap {
    type V = StreetmapView;

    closed spec fn view(&self) -> StreetmapView {
        StreetmapView {
            width: self.width as nat,
            height: self.height as nat,
            blocks: self.blocks@,
            edges: self.edges@,
        }
    }
}

impl Streetmap {
    /// The representation invariant: the model is valid, and the grid
    /// describes every chunk of it.
    pub closed spec fn wf(&self) -> bool {
        &&& self@.valid()
        &&& self.x_chunks == self@.columns()
        &&& self.y_chunks == self@.rows()
        &&& self.chunks.len() == self@.columns() * self@.rows()
        &&& forall|c: int|
            0 <= c < self.chunks.len() ==> self@.describes_chunk(c, #[trigger] self.chunks@[c])
    }

    /// A well-formed map has a valid model that fits the machine: its
    /// chunks, blocks and edges can all be indexed.
    pub proof fn lemma_wf_valid(&self)
        requires
            self.wf(),
        ensures
            self@.valid(),
            self@.width <= u16::MAX,
            self@.height <= u16::MAX,
            self@.columns() * self@.rows() <= usize::MAX,
            self@.blocks.len() <= usize::MAX,
            self@.edges.len() <= usize::MAX,
    {
        assert(self.blocks.len() == self@.blocks.len());
        assert(self.edges.len() == self@.edges.len());
    }

    /// Creates an empty map over the area `[0, width) x [0, height)`, with
    /// one empty chunk for every tile of the grid that covers it. An area
    /// without points has no chunks.
    pub fn new(width: u16, height: u16) -> (map: Streetmap)
        ensures
            map.wf(),
            map@ == (StreetmapView {
                width: width as nat,
                height: height as nat,
                blocks: Seq::empty(),
                edges: Seq::empty(),
            }),
    {
        let x_chunks = chunk_span(width);
        let y_chunks = chunk_span(height);
        assert(x_chunks * y_chunks <= 2048 * 2048) by (nonlinear_arith)
            requires
                0 <= x_chunks <= 2048,
                0 <= y_chunks <= 2048,
        ;
        let total = x_chunks * y_chunks;
        let ghost model = StreetmapView {
            width: width as nat,
            height: height as nat,
            blocks: Seq::empty(),
            edges: Seq::empty(),
        };
        let mut chunks: Vec<Chunk> = Vec::new();
        for i in 0..total
            invariant
                x_chunks == model.columns(),
                y_chunks == model.rows(),
                total == x_chunks * y_chunks,
                model.width == width,
                model.height == height,
                model.blocks.len() == 0,
                chunks@.len() == i,
                forall|c: int| 0 <= c < i ==> model.describes_chunk(c, #[trigger] chunks@[c]),
        {
            proof {
                lemma_cell_in_grid(x_chunks as nat, y_chunks as nat, i as int);
            }
            let chunk_x = i % x_chunks;
            let chunk_y = i / x_chunks;
            chunks.push(
                Chunk {
                    center_x: CHUNK_SIZE / 2 + (chunk_x as u16) * CHUNK_SIZE,
                    center_y: CHUNK_SIZE / 2 + (chunk_y as u16) * CHUNK_SIZE,
                    chunk_x,
                    chunk_y,
                    blocks: Vec::new(),
                },
            );
        }
        Streetmap {
            blocks: Vec::new(),
            edges: Vec::new(),
            width,
            height,
            x_chunks,
            y_chunks,
            chunks,
        }
    }

    /// Width of the area.
    pub fn width(&self) -> (w: u16)
        ensures
            w == self@.width,
    {
        self.width
    }

    /// Height of the area.
    pub fn height(&self) -> (h: u16)
        ensures
            h == self@.height,
    {
        self.height
    }

    /// Number of chunks in one row of the grid: the ceiling of
    /// `width / CHUNK_SIZE`.
    pub fn x_chunks(&self) -> (n: usize)
        requires
            self.wf(),
        ensures
            n == self@.columns(),
    {
        self.x_chunks
    }

    /// Number of rows of the grid: the ceiling of `height / CHUNK_SIZE`.
    pub fn y_chunks(&self) -> (n: usize)
        requires
            self.wf(),
        ensures
            n == self@.rows(),
    {
        self.y_chunks
    }

    /// The chunks of the grid, row by row: the chunk in column `c` and row
    /// `r` stands at index `c + r * x_chunks`.
    pub fn chunks(&self) -> (chunks: &Vec<Chunk>)
        requires
            self.wf(),
        ensures
            chunks@.len() == self@.columns() * self@.rows(),
            forall|c: int|
                0 <= c < chunks@.len() ==> self@.describes_chunk(c, #[trigger] chunks@[c]),
    {
        &self.chunks
    }

    /// The blocks of the map, in the order they were placed.
    pub fn blocks(&self) -> (blocks: &Vec<BlockData>)
        ensures
            blocks@ == self@.blocks,
    {
        &self.blocks
    }

    /// The edges of the map, in the order they were added.
    pub fn edges(&self) -> (edges: &Vec<EdgeData>)
        ensures
            edges@ == self@.edges,
    {
        &self.edges
    }

    /// Index of the chunk that holds `(x, y)`: its column is
    /// `x / CHUNK_SIZE`, its row `y / CHUNK_SIZE`, and its index the column
    /// plus the row times the number of columns. A point outside the area
    /// has no chunk.
    pub fn find_chunk(&self, x: u16, y: u16) -> (r: Result<ChunkIndex, MapError>)
        requires
            self.wf(),
        ensures
            self@.inside(x as nat, y as nat) ==> r == Ok::<ChunkIndex, MapError>(
                self@.locate(x as nat, y as nat) as usize,
            ) && self@.has_chunk(self@.locate(x as nat, y as nat) as int),
            !self@.inside(x as nat, y as nat) ==> r == Err::<ChunkIndex, MapError>(
                MapError::OutOfArea,
            ),
    {
        if x >= self.width || y >= self.height {
            return Err(MapError::OutOfArea);
        }
        proof {
            lemma_chunk_of_in_grid(self.width as nat, self.height as nat, x as nat, y as nat);
            lemma_cell_coordinates(
                self@.columns(),
                (x / CHUNK_SIZE) as int,
                (y / CHUNK_SIZE) as int,
            );
        }
        let chunk_index_x = (x / CHUNK_SIZE) as usize;
        let chunk_index_y = (y / CHUNK_SIZE) as usize * self.x_chunks;
        Ok(chunk_index_x + chunk_index_y)
    }

    /// Lists the chunk `initial` and the chunks that touch it along a side
    /// or at a corner, in row-major order and each once. A chunk on the rim
    /// of the grid has fewer than nine of them.
    pub fn adjacent_chunks(&self, initial: ChunkIndex) -> (r: Result<Vec<ChunkIndex>, MapError>)
        requires
            self.wf(),
        ensures
            self@.has_chunk(initial as int) ==> (r matches Ok(cells) && is_neighborhood(
                self@.columns(),
                self@.rows(),
                initial as int,
                cells@,
            ) && cells@.len() <= 9),
            !self@.has_chunk(initial as int) ==> r matches Err(MapError::NoSuchChunk),
    {
        if initial >= self.chunks.len() {
            return Err(MapError::NoSuchChunk);
        }
        let column = self.chunks[initial].chunk_x;
        let row = self.chunks[initial].chunk_y;
        let ghost columns = self@.columns();
        let ghost rows = self@.rows();
        proof {
            assert(self@.describes_chunk(initial as int, self.chunks@[initial as int]));
            lemma_cell_in_grid(columns, rows, initial as int);
        }
        let mut outvector: Vec<ChunkIndex> = Vec::new();
        let mut k: usize = 0;
        while k < 9
            invariant
                self.x_chunks == columns,
                self.y_chunks == rows,
                columns <= 2048,
                rows <= 2048,
                columns * rows <= usize::MAX,
                in_grid(columns, rows, initial as int),
                column == column_of(columns, initial as int),
                row == row_of(columns, initial as int),
                column < columns,
                row < rows,
                k <= 9,
                outvector@.len() <= k,
                scan_contains(columns, rows, initial as int, outvector@, k as int),
            decreases 9 - k,
        {
            let down = k / 3;
            let right = k % 3;
            let ghost before = outvector@;
            let mut found: Option<ChunkIndex> = None;
            if row + down >= 1 && row + down - 1 < self.y_chunks && column + right >= 1 && column
                + right - 1 < self.x_chunks {
                proof {
                    lemma_coordinates_in_grid(columns, rows, column + right - 1, row + down - 1);
                }
                let cell = (column + right - 1) + (row + down - 1) * self.x_chunks;
                outvector.push(cell);
                found = Some(cell);
            }
            proof {
                lemma_neighborhood_scan(columns, rows, initial as int, before, k as int, found);
            }
            k += 1;
        }
        Ok(outvector)
    }

    /// Squared distance from block `a` to `(x, y)`.
    pub fn sq_dist_from_block(&self, a: BlockIndex, x: u16, y: u16) -> (r: Result<u64, MapError>)
        ensures
            self@.has_block(a) ==> r == Ok::<u64, MapError>(
                self@.block_dist(a as int, x as nat, y as nat) as u64,
            ) && 0 <= self@.block_dist(a as int, x as nat, y as nat) <= u64::MAX,
            !self@.has_block(a) ==> r == Err::<u64, MapError>(MapError::NoSuchBlock),
    {
        if a >= self.blocks.len() {
            return Err(MapError::NoSuchBlock);
        }
        let block = &self.blocks[a];
        let x_dist: u64 = if block.x >= x {
            (block.x - x) as u64
        } else {
            (x - block.x) as u64
        };
        let y_dist: u64 = if block.y >= y {
            (block.y - y) as u64
        } else {
            (y - block.y) as u64
        };
        proof {
            let dx = block.x as int - x as int;
            let dy = block.y as int - y as int;
            assert(x_dist * x_dist == dx * dx && x_dist * x_dist <= 0xffff * 0xffff)
                by (nonlinear_arith)
                requires
                    x_dist == dx || x_dist == -dx,
                    0 <= x_dist <= 0xffff,
            ;
            assert(y_dist * y_dist == dy * dy && y_dist * y_dist <= 0xffff * 0xffff)
                by (nonlinear_arith)
                requires
                    y_dist == dy || y_dist == -dy,
                    0 <= y_dist <= 0xffff,
            ;
        }
        Ok(x_dist * x_dist + y_dist * y_dist)
    }

    /// Score of `(x, y)` against the boundary of the area: the distance to
    /// the nearer side on each axis, squared, and the smaller of the two
    /// squares. A point on the boundary scores zero; a point beyond it is
    /// refused.
    pub fn sq_dist_from_edge(&self, x: u16, y: u16) -> (r: Result<u64, MapError>)
        ensures
            x <= self@.width && y <= self@.height ==> r == Ok::<u64, MapError>(
                self@.boundary_score(x as nat, y as nat) as u64,
            ) && 0 <= self@.boundary_score(x as nat, y as nat) <= u64::MAX,
            !(x <= self@.width && y <= self@.height) ==> r == Err::<u64, MapError>(
                MapError::OutOfArea,
            ),
    {
        if x > self.width || y > self.height {
            return Err(MapError::OutOfArea);
        }
        let x_dist: u64 = if x <= self.width - x {
            x as u64
        } else {
            (self.width - x) as u64
        };
        let y_dist: u64 = if y <= self.height - y {
            y as u64
        } else {
            (self.height - y) as u64
        };
        proof {
            assert(0 <= x_dist * x_dist <= 0xffff * 0xffff) by (nonlinear_arith)
                requires
                    0 <= x_dist <= 0xffff,
            ;
            assert(0 <= y_dist * y_dist <= 0xffff * 0xffff) by (nonlinear_arith)
                requires
                    0 <= y_dist <= 0xffff,
            ;
        }
        let x_score = x_dist * x_dist;
        let y_score = y_dist * y_dist;
        if x_score <= y_score {
            Ok(x_score)
        } else {
            Ok(y_score)
        }
    }

    /// Squared distance from `(x, y)` to the nearest of the blocks that lie
    /// in the chunks `cells`; `None` where these chunks hold no block. Only
    /// the blocks of these chunks are looked at. A list that names a chunk
    /// outside the grid is refused.
    pub fn sq_dist_from_nearest(&self, cells: &Vec<ChunkIndex>, x: u16, y: u16) -> (r: Result<
        Option<u64>,
        MapError,
    >)
        requires
            self.wf(),
        ensures
            self@.has_chunks(cells@) ==> r == Ok::<Option<u64>, MapError>(
                StreetmapView::as_distance(self@.nearest(cells@.to_set(), x as nat, y as nat)),
            ),
            self@.has_chunks(cells@) ==> (self@.nearest(cells@.to_set(), x as nat, y as nat)
                matches Some(d) ==> 0 <= d <= u64::MAX),
            !self@.has_chunks(cells@) ==> r == Err::<Option<u64>, MapError>(
                MapError::NoSuchChunk,
            ),
    {
        let ghost model = self@;
        let ghost count = model.blocks.len();
        let ghost among = cells@.to_set();
        proof {
            assert(self.blocks.len() == count);
        }
        let mut nearest: Option<u64> = None;
        for a in 0..cells.len()
            invariant
                self.wf(),
                model == self@,
                count == model.blocks.len(),
                count <= usize::MAX,
                among == cells@.to_set(),
                forall|b: int| 0 <= b < a ==> model.has_chunk(#[trigger] cells@[b] as int),
                nearest is None ==> forall|b: int, i: int|
                    #![trigger cells@[b], model.blocks[i]]
                    0 <= b < a && 0 <= i < count ==> model.blocks[i].chunk_index != cells@[b],
                nearest matches Some(d) ==> forall|b: int, i: int|
                    #![trigger cells@[b], model.block_dist(i, x as nat, y as nat)]
                    0 <= b < a && 0 <= i < count && model.blocks[i].chunk_index == cells@[b] ==> d
                        <= model.block_dist(i, x as nat, y as nat),
                nearest matches Some(d) ==> exists|i: int|
                    0 <= i < count && model.in_cells(i, among) && d
                        == #[trigger] model.block_dist(i, x as nat, y as nat),
        {
            let cell = cells[a];
            if cell >= self.chunks.len() {
                return Err(MapError::NoSuchChunk);
            }
            proof {
                assert(among.contains(cell));
                assert(model.describes_chunk(cell as int, self.chunks@[cell as int]));
            }
            let blocks = &self.chunks[cell].blocks;
            for j in 0..blocks.len()
                invariant
                    self.wf(),
                    model == self@,
                    count == model.blocks.len(),
                    count <= usize::MAX,
                    among.contains(cell),
                    blocks@ == model.members(cell as int),
                    nearest is None ==> j == 0,
                    nearest is None ==> forall|b: int, i: int|
                        #![trigger cells@[b], model.blocks[i]]
                        0 <= b < a && 0 <= i < count ==> model.blocks[i].chunk_index != cells@[b],
                    nearest matches Some(d) ==> forall|b: int, i: int|
                        #![trigger cells@[b], model.block_dist(i, x as nat, y as nat)]
                        0 <= b < a && 0 <= i < count && model.blocks[i].chunk_index == cells@[b]
                            ==> d <= model.block_dist(i, x as nat, y as nat),
                    nearest matches Some(d) ==> forall|k: int|
                        0 <= k < j ==> d <= #[trigger] model.block_dist(
                            blocks@[k] as int,
                            x as nat,
                            y as nat,
                        ),
                    nearest matches Some(d) ==> exists|i: int|
                        0 <= i < count && model.in_cells(i, among) && d
                            == #[trigger] model.block_dist(i, x as nat, y as nat),
            {
                let b_index = blocks[j];
                proof {
                    assert(blocks@.contains(b_index));
                    model.lemma_members_contains(cell as int, count, b_index);
                }
                let block_dist = self.sq_dist_from_block(b_index, x, y).unwrap();
                let closer = match nearest {
                    Some(dist) => block_dist < dist,
                    None => true,
                };
                if closer {
                    nearest = Some(block_dist);
                    proof {
                        assert(model.in_cells(b_index as int, among) && block_dist
                            == model.block_dist(b_index as int, x as nat, y as nat));
                    }
                }
            }
            proof {
                assert forall|i: int|
                    0 <= i < count && model.blocks[i].chunk_index == cell implies (nearest matches Some(
                        d,
                    ) && d <= #[trigger] model.block_dist(i, x as nat, y as nat)) by {
                    model.lemma_members_contains(cell as int, count, i as usize);
                    let k = choose|k: int| 0 <= k < blocks@.len() && blocks@[k] == i as usize;
                    assert(nearest matches Some(d) && d <= model.block_dist(
                        blocks@[k] as int,
                        x as nat,
                        y as nat,
                    ));
                }
                if nearest is None {
                    assert forall|b: int, i: int|
                        #![trigger cells@[b], model.blocks[i]]
                        0 <= b < a + 1 && 0 <= i < count implies model.blocks[i].chunk_index
                        != cells@[b] by {
                        if b == a {
                            model.lemma_members_contains(cell as int, count, i as usize);
                        }
                    }
                }
            }
        }
        proof {
            let found: Option<int> = match nearest {
                Some(d) => Some(d as int),
                None => None,
            };
            assert forall|i: int|
                0 <= i < count && model.in_cells(i, among) implies (nearest matches Some(d) && d
                    <= #[trigger] model.block_dist(i, x as nat, y as nat)) by {
                let home = model.blocks[i].chunk_index;
                assert(cells@.contains(home));
                let b = choose|b: int| 0 <= b < cells@.len() && cells@[b] == home;
                assert(model.blocks[i].chunk_index == cells@[b]);
            }
            model.lemma_nearest_is_minimum(among, x as nat, y as nat, found);
        }
        Ok(nearest)
    }

    /// Places a block at `(x, y)` and registers it in the chunk that holds
    /// it. Returns the index of the new block. A point outside the area is
    /// refused and the map stays as it was.
    pub fn add_block(&mut self, x: u16, y: u16) -> (r: Result<BlockIndex, MapError>)
        requires
            old(self).wf(),
        ensures
            final(self).wf(),
            old(self)@.inside(x as nat, y as nat) ==> r == Ok::<BlockIndex, MapError>(
                old(self)@.blocks.len() as usize,
            ) && final(self)@ == old(self)@.with_block(x, y),
            !old(self)@.inside(x as nat, y as nat) ==> r == Err::<BlockIndex, MapError>(
                MapError::OutOfArea,
            ) && final(self)@ == old(self)@,
    {
        let index = self.blocks.len();
        let chunk = match self.find_chunk(x, y) {
            Ok(chunk) => chunk,
            Err(e) => {
                return Err(e);
            },
        };
        self.blocks.push(BlockData { x: x, y: y, chunk_index: chunk, first_edge: None });
        self.chunks[chunk].blocks.push(index);
        proof {
            let before = old(self)@;
            let after = self@;
            assert(after == before.with_block(x, y));
            before.lemma_with_block(x, y);
            assert forall|c: int| 0 <= c < self.chunks.len() implies after.describes_chunk(
                c,
                #[trigger] self.chunks@[c],
            ) by {
                assert(before.describes_chunk(c, old(self).chunks@[c]));
                before.lemma_with_block_members(x, y, c);
            }
        }
        Ok(index)
    }

    /// Adds a directed edge from `source` to `target` and makes it the head
    /// of the edge list of `source`, so that a walk over the edges of
    /// `source` meets it first. Both must be blocks of the map; otherwise
    /// the edge is refused and the map stays as it was.
    pub fn add_edge(&mut self, source: BlockIndex, target: BlockIndex) -> (r: Result<(), MapError>)
        requires
            old(self).wf(),
        ensures
            final(self).wf(),
            old(self)@.has_block(source) && old(self)@.has_block(target) ==> r is Ok
                && final(self)@ == old(self)@.with_edge(source, target),
            old(self)@.has_block(source) && old(self)@.has_block(target) ==> final(self)@.outgoing(source as int) == seq![target] + old(self)@.outgoing(source as int),
            old(self)@.has_block(source) && old(self)@.has_block(target) ==> forall|b: int|
                0 <= b < old(self)@.blocks.len() && b != source ==> #[trigger] final(self)@.outgoing(b) == old(self)@.outgoing(b),
            !(old(self)@.has_block(source) && old(self)@.has_block(target)) ==> r == Err::<
                (),
                MapError,
            >(MapError::NoSuchBlock) && final(self)@ == old(self)@,
    {
        if source >= self.blocks.len() || target >= self.blocks.len() {
            return Err(MapError::NoSuchBlock);
        }
        let edge_index = self.edges.len();
        let next_edge = self.blocks[source].first_edge;
        self.edges.push(EdgeData { target: target, next_edge: next_edge });
        self.blocks[source].first_edge = Some(edge_index);
        proof {
            let before = old(self)@;
            let after = self@;
            assert(after.blocks == before.with_edge(source, target).blocks);
            assert(after == before.with_edge(source, target));
            before.lemma_with_edge(source, target);
            assert forall|c: int| 0 <= c < self.chunks.len() implies after.describes_chunk(
                c,
                #[trigger] self.chunks@[c],
            ) by {
                assert(before.describes_chunk(c, old(self).chunks@[c]));
                before.lemma_with_edge_members(source, target, c);
            }
        }
        Ok(())
    }

    /// Starts a walk over the targets of the edges that leave `block`, the
    /// most recently added first. Every call starts a walk of its own.
    pub fn block_edges(&self, block: BlockIndex) -> (r: Result<Adjacent<'_>, MapError>)
        requires
            self.wf(),
        ensures
            self@.has_block(block) ==> (r matches Ok(walk) && walk.wf() && walk@
                == self@.outgoing(block as int)),
            !self@.has_block(block) ==> r matches Err(MapError::NoSuchBlock),
    {
        if block >= self.blocks.len() {
            return Err(MapError::NoSuchBlock);
        }
        proof {
            assert(self@.block_valid(self@.blocks[block as int]));
        }
        Ok(Adjacent { streetmap: self, current_edge: self.blocks[block].first_edge })
    }
}

/// A walk over the outgoing edges of one block. Each call of `next` yields
/// the target of one edge.
pub struct Adjacent<'map> {
    streetmap: &'map Streetmap,
    current_edge: Option<EdgeIndex>,
}

impl<'map> View for Adjacent<'map> {
    type V = Seq<BlockIndex>;

    /// The targets that the walk has still to yield, in order.
    closed spec fn view(&self) -> Seq<BlockIndex> {
        chain(self.streetmap@.edges, self.current_edge)
    }
}

impl<'map> Adjacent<'map> {
    /// The walk stands on a well-formed map, at an edge of that map or at
    /// the end.
    pub closed spec fn wf(&self) -> bool {
        &&& self.streetmap.wf()
        &&& self.current_edge matches Some(e) ==> e < self.streetmap@.edges.len()
    }

    /// Yields the target of the edge the walk stands at and moves on to the
    /// edge added before it; yields `None` once the list is used up.
    pub fn next(&mut self) -> (r: Option<BlockIndex>)
        requires
            old(self).wf(),
        ensures
            final(self).wf(),
            old(self)@.len() == 0 ==> r is None && final(self)@ == old(self)@,
            old(self)@.len() > 0 ==> r == Some(old(self)@[0]) && final(self)@ == old(self)@.skip(1),
    {
        match self.current_edge {
            None => None,
            Some(edge_num) => {
                proof {
                    assert(self.streetmap@.edge_valid(edge_num as int));
                }
                let edge = &self.streetmap.edges[edge_num];
                self.current_edge = edge.next_edge;
                Some(edge.target)
            },
        }
    }
}

} // verus!
