//! The mathematical model of a street map, and what holds of it: which
//! blocks lie in a chunk, which targets a block leads to, what a candidate
//! scores, and which of several candidates is kept.

use crate::grid::adjacent;
use crate::grid::chunk_center;
use crate::grid::chunk_of;
use crate::grid::chunks_across;
use crate::grid::column_of;
use crate::grid::edge_score;
use crate::grid::in_grid;
use crate::grid::lemma_cell_coordinates;
use crate::grid::row_of;
use crate::grid::sq_dist;
use crate::setting::BlockData;
use crate::setting::BlockIndex;
use crate::setting::Chunk;
use crate::setting::ChunkIndex;
use crate::setting::EdgeData;
use crate::setting::EdgeIndex;
use vstd::math::min;
use vstd::prelude::*;
use vstd::seq_lib::lemma_seq_contains_after_push;

verus! {

/// What a map is, apart from how it is indexed: its area, its blocks in the
/// order they were placed, and its edges in the order they were added.
pub struct StreetmapView {
    pub width: nat,
    pub height: nat,
    pub blocks: Seq<BlockData>,
    pub edges: Seq<EdgeData>,
}

/// Targets of the edges reached from `head` by following `next_edge`, in the
/// order they are met. A link that does not lead to an earlier edge ends the
/// walk.
pub open spec fn chain(edges: Seq<EdgeData>, head: Option<EdgeIndex>) -> Seq<BlockIndex>
    decreases
            (match head {
                Some(e) => e + 1,
                None => 0,
            }),
{
    match head {
        None => Seq::empty(),
        Some(e) => if e < edges.len() && (edges[e as int].next_edge matches Some(n) ==> n < e) {
            seq![edges[e as int].target] + chain(edges, edges[e as int].next_edge)
        } else {
            Seq::empty()
        },
    }
}

impl StreetmapView {
    /// Number of chunks in one row of the grid.
    pub open spec fn columns(self) -> nat {
        chunks_across(self.width)
    }

    /// Number of rows of the grid.
    pub open spec fn rows(self) -> nat {
        chunks_across(self.height)
    }

    /// Whether `block` names a block of the map.
    pub open spec fn has_block(self, block: BlockIndex) -> bool {
        block < self.blocks.len()
    }

    /// Whether `cell` names a chunk of the grid.
    pub open spec fn has_chunk(self, cell: int) -> bool {
        in_grid(self.columns(), self.rows(), cell)
    }

    /// Whether every entry of `cells` names a chunk of the grid.
    pub open spec fn has_chunks(self, cells: Seq<ChunkIndex>) -> bool {
        forall|b: int| 0 <= b < cells.len() ==> self.has_chunk(#[trigger] cells[b] as int)
    }

    /// Whether `(x, y)` lies inside the area.
    pub open spec fn inside(self, x: nat, y: nat) -> bool {
        x < self.width && y < self.height
    }

    /// Index of the chunk that holds `(x, y)`.
    pub open spec fn locate(self, x: nat, y: nat) -> nat {
        chunk_of(self.columns(), x, y)
    }

    /// A block is valid when it lies inside the area, records the chunk that
    /// holds it, and heads a list that starts at an existing edge.
    pub open spec fn block_valid(self, b: BlockData) -> bool {
        &&& self.inside(b.x as nat, b.y as nat)
        &&& b.chunk_index == self.locate(b.x as nat, b.y as nat)
        &&& b.first_edge matches Some(e) ==> e < self.edges.len()
    }

    /// An edge is valid when it leads to an existing block and links only to
    /// an edge added before it.
    pub open spec fn edge_valid(self, e: int) -> bool {
        &&& self.edges[e].target < self.blocks.len()
        &&& self.edges[e].next_edge matches Some(n) ==> n < e
    }

    /// The invariant of the model: every block and every edge is valid.
    pub open spec fn valid(self) -> bool {
        &&& forall|i: int|
            0 <= i < self.blocks.len() ==> self.block_valid(#[trigger] self.blocks[i])
        &&& forall|e: int| 0 <= e < self.edges.len() ==> #[trigger] self.edge_valid(e)
    }

    /// Indices of the blocks among the first `n` that lie in chunk `cell`,
    /// in ascending order.
    pub open spec fn members_upto(self, cell: int, n: nat) -> Seq<BlockIndex>
        decreases n,
    {
        if n == 0 {
            Seq::empty()
        } else {
            let earlier = self.members_upto(cell, (n - 1) as nat);
            if self.blocks[n - 1].chunk_index == cell {
                earlier.push((n - 1) as usize)
            } else {
                earlier
            }
        }
    }

    /// Indices of the blocks that lie in chunk `cell`, in ascending order.
    pub open spec fn members(self, cell: int) -> Seq<BlockIndex> {
        self.members_upto(cell, self.blocks.len())
    }

    /// Whether `chunk` is the record of the chunk with index `cell`: its
    /// column and row, its centre, and the blocks that lie in it.
    pub open spec fn describes_chunk(self, cell: int, chunk: Chunk) -> bool {
        &&& chunk.chunk_x == column_of(self.columns(), cell)
        &&& chunk.chunk_y == row_of(self.columns(), cell)
        &&& chunk.center_x == chunk_center(chunk.chunk_x as nat)
        &&& chunk.center_y == chunk_center(chunk.chunk_y as nat)
        &&& chunk.blocks@ == self.members(cell)
    }

    /// Targets of the edges that leave `block`, the most recently added
    /// first.
    pub open spec fn outgoing(self, block: int) -> Seq<BlockIndex> {
        chain(self.edges, self.blocks[block].first_edge)
    }

    /// Squared distance from block `i` to `(x, y)`.
    pub open spec fn block_dist(self, i: int, x: nat, y: nat) -> int {
        sq_dist(self.blocks[i].x as int, self.blocks[i].y as int, x as int, y as int)
    }

    /// Whether block `i` lies in one of the chunks `cells`.
    pub open spec fn in_cells(self, i: int, cells: Set<ChunkIndex>) -> bool {
        cells.contains(self.blocks[i].chunk_index)
    }

    /// The chunks around `(x, y)`: the chunk that holds it and the chunks
    /// that touch that one.
    pub open spec fn around(self, x: nat, y: nat) -> Set<ChunkIndex> {
        Set::new(
            |c: ChunkIndex| adjacent(self.columns(), self.rows(), self.locate(x, y) as int, c as int),
        )
    }

    /// Whether block `i` lies in the chunk that holds `(x, y)` or in one of
    /// the chunks around it.
    pub open spec fn near(self, i: int, x: nat, y: nat) -> bool {
        self.in_cells(i, self.around(x, y))
    }

    /// Score of `(x, y)` against the boundary of the area.
    pub open spec fn boundary_score(self, x: nat, y: nat) -> int {
        edge_score(self.width as int, self.height as int, x as int, y as int)
    }

    /// The smallest squared distance from `(x, y)` to a block that is among
    /// the first `n` and lies in one of the chunks `cells`; `None` where
    /// there is no such block.
    pub open spec fn nearest_upto(self, cells: Set<ChunkIndex>, x: nat, y: nat, n: nat) -> Option<
        int,
    >
        decreases n,
    {
        if n == 0 {
            None
        } else {
            let earlier = self.nearest_upto(cells, x, y, (n - 1) as nat);
            if self.in_cells(n - 1, cells) {
                match earlier {
                    Some(d) => Some(min(d, self.block_dist(n - 1, x, y))),
                    None => Some(self.block_dist(n - 1, x, y)),
                }
            } else {
                earlier
            }
        }
    }

    /// The smallest squared distance from `(x, y)` to a block in one of the
    /// chunks `cells`; `None` where these chunks hold no block.
    pub open spec fn nearest(self, cells: Set<ChunkIndex>, x: nat, y: nat) -> Option<int> {
        self.nearest_upto(cells, x, y, self.blocks.len())
    }

    /// A distance as the machine holds it.
    pub open spec fn as_distance(found: Option<int>) -> Option<u64> {
        match found {
            Some(d) => Some(d as u64),
            None => None,
        }
    }

    /// Score of a candidate at `(x, y)`: the smaller of its boundary score
    /// and its squared distance to the nearest block in the chunks around
    /// it. With no block there, it is the boundary score alone.
    pub open spec fn score(self, x: nat, y: nat) -> int {
        match self.nearest(self.around(x, y), x, y) {
            Some(d) => min(self.boundary_score(x, y), d),
            None => self.boundary_score(x, y),
        }
    }

    /// Whether every candidate lies inside the area.
    pub open spec fn all_inside(self, candidates: Seq<(u16, u16)>) -> bool {
        forall|k: int|
            0 <= k < candidates.len() ==> self.inside(
                (#[trigger] candidates[k]).0 as nat,
                candidates[k].1 as nat,
            )
    }

    /// Score of the candidate with index `k`.
    pub open spec fn score_of(self, candidates: Seq<(u16, u16)>, k: int) -> int {
        self.score(candidates[k].0 as nat, candidates[k].1 as nat)
    }

    /// Whether `best` is the index of the candidate to keep: the first of
    /// those with the greatest score.
    pub open spec fn is_best(self, candidates: Seq<(u16, u16)>, best: int) -> bool {
        &&& 0 <= best < candidates.len()
        &&& forall|k: int|
            0 <= k < best ==> #[trigger] self.score_of(candidates, k) < self.score_of(
                candidates,
                best,
            )
        &&& forall|k: int|
            best <= k < candidates.len() ==> #[trigger] self.score_of(candidates, k)
                <= self.score_of(candidates, best)
    }

    /// Index of the candidate to keep.
    pub open spec fn best(self, candidates: Seq<(u16, u16)>) -> int {
        choose|best: int| self.is_best(candidates, best)
    }

    /// The map with one more block at `(x, y)`.
    pub open spec fn with_block(self, x: u16, y: u16) -> StreetmapView {
        StreetmapView {
            blocks: self.blocks.push(
                BlockData {
                    x,
                    y,
                    chunk_index: self.locate(x as nat, y as nat) as usize,
                    first_edge: None,
                },
            ),
            ..self
        }
    }

    /// The map with one more edge from `source` to `target`, linked in at the
    /// head of the list of `source`.
    pub open spec fn with_edge(self, source: BlockIndex, target: BlockIndex) -> StreetmapView {
        StreetmapView {
            blocks: self.blocks.update(
                source as int,
                BlockData {
                    first_edge: Some(self.edges.len() as usize),
                    ..self.blocks[source as int]
                },
            ),
            edges: self.edges.push(
                EdgeData { target, next_edge: self.blocks[source as int].first_edge },
            ),
            ..self
        }
    }

    /// Whether this map is `earlier` with `count` more blocks, none of which
    /// has an edge yet.
    pub open spec fn extends(self, earlier: StreetmapView, count: nat) -> bool {
        &&& self.width == earlier.width
        &&& self.height == earlier.height
        &&& self.edges == earlier.edges
        &&& self.blocks.len() == earlier.blocks.len() + count
        &&& forall|i: int|
            0 <= i < earlier.blocks.len() ==> #[trigger] self.blocks[i] == earlier.blocks[i]
        &&& forall|i: int|
            earlier.blocks.len() <= i < self.blocks.len() ==> (#[trigger] self.blocks[i]).first_edge
                is None
    }

    /// The chunk in column `column` and row `row` has its centre at
    /// `CHUNK_SIZE / 2 + column * CHUNK_SIZE` across and
    /// `CHUNK_SIZE / 2 + row * CHUNK_SIZE` down.
    pub proof fn lemma_chunk_center(self, column: nat, row: nat, chunk: Chunk)
        requires
            column < self.columns(),
            self.describes_chunk((column + row * self.columns()) as int, chunk),
        ensures
            chunk.chunk_x == column,
            chunk.chunk_y == row,
            chunk.center_x == chunk_center(column),
            chunk.center_y == chunk_center(row),
    {
        lemma_cell_coordinates(self.columns(), column as int, row as int);
    }

    /// Two maps whose first `n` blocks lie in the same chunks have the same
    /// members among those blocks.
    pub proof fn lemma_members_agree(self, other: StreetmapView, cell: int, n: nat)
        requires
            n <= self.blocks.len(),
            n <= other.blocks.len(),
            forall|i: int| 0 <= i < n ==> self.blocks[i].chunk_index == other.blocks[i].chunk_index,
        ensures
            self.members_upto(cell, n) == other.members_upto(cell, n),
        decreases n,
    {
        if n > 0 {
            self.lemma_members_agree(other, cell, (n - 1) as nat);
        }
    }

    /// A block is a member of a chunk exactly when it records that chunk.
    pub proof fn lemma_members_contains(self, cell: int, n: nat, i: BlockIndex)
        requires
            n <= self.blocks.len(),
            n <= usize::MAX,
        ensures
            self.members_upto(cell, n).contains(i) <==> (i < n && self.blocks[i as int].chunk_index
                == cell),
        decreases n,
    {
        if n > 0 {
            self.lemma_members_contains(cell, (n - 1) as nat, i);
            lemma_seq_contains_after_push(
                self.members_upto(cell, (n - 1) as nat),
                (n - 1) as usize,
                i,
            );
        }
    }

    /// The members of a chunk are listed in ascending order, so none is
    /// listed twice.
    pub proof fn lemma_members_ascending(self, cell: int, n: nat)
        requires
            n <= self.blocks.len(),
            n <= usize::MAX,
        ensures
            forall|j: int, k: int|
                0 <= j < k < self.members_upto(cell, n).len() ==> self.members_upto(cell, n)[j]
                    < self.members_upto(cell, n)[k],
            forall|j: int|
                0 <= j < self.members_upto(cell, n).len() ==> self.members_upto(cell, n)[j] < n,
        decreases n,
    {
        if n > 0 {
            self.lemma_members_ascending(cell, (n - 1) as nat);
            let earlier = self.members_upto(cell, (n - 1) as nat);
            let all = self.members_upto(cell, n);
            assert forall|j: int| 0 <= j < all.len() implies all[j] < n by {
                if j < earlier.len() {
                    assert(earlier[j] < n - 1);
                }
            }
            assert forall|j: int, k: int| 0 <= j < k < all.len() implies all[j] < all[k] by {
                if k < earlier.len() {
                    assert(earlier[j] < earlier[k]);
                } else {
                    assert(earlier[j] < n - 1);
                }
            }
        }
    }

    /// Placing a block adds its index at the end of the members of the chunk
    /// that holds it, and leaves the members of every other chunk as they
    /// were.
    pub proof fn lemma_with_block_members(self, x: u16, y: u16, cell: int)
        ensures
            cell == self.locate(x as nat, y as nat) as usize ==> self.with_block(x, y).members(cell)
                == self.members(cell).push(self.blocks.len() as usize),
            cell != self.locate(x as nat, y as nat) as usize ==> self.with_block(x, y).members(cell)
                == self.members(cell),
    {
        self.lemma_members_agree(self.with_block(x, y), cell, self.blocks.len());
    }

    /// Adding an edge leaves the members of every chunk as they were.
    pub proof fn lemma_with_edge_members(self, source: BlockIndex, target: BlockIndex, cell: int)
        requires
            self.has_block(source),
        ensures
            self.with_edge(source, target).members(cell) == self.members(cell),
    {
        self.lemma_members_agree(self.with_edge(source, target), cell, self.blocks.len());
    }

    /// Appending an edge does not change the walk from a head that was
    /// already there.
    pub proof fn lemma_chain_push(edges: Seq<EdgeData>, added: EdgeData, head: Option<EdgeIndex>)
        requires
            head matches Some(e) ==> e < edges.len(),
        ensures
            chain(edges.push(added), head) == chain(edges, head),
        decreases
                (match head {
                    Some(e) => e + 1,
                    None => 0,
                }),
    {
        if let Some(e) = head {
            let grown = edges.push(added);
            assert(grown[e as int] == edges[e as int]);
            if edges[e as int].next_edge matches Some(n) ==> n < e {
                Self::lemma_chain_push(edges, added, edges[e as int].next_edge);
            }
        }
    }

    /// Placing a block keeps the model valid and leaves the targets of every
    /// block that was there as they were; the new block has none.
    pub proof fn lemma_with_block(self, x: u16, y: u16)
        requires
            self.valid(),
            self.inside(x as nat, y as nat),
            self.locate(x as nat, y as nat) <= usize::MAX,
        ensures
            self.with_block(x, y).valid(),
            self.with_block(x, y).extends(self, 1),
            self.with_block(x, y).outgoing(self.blocks.len() as int) == Seq::<BlockIndex>::empty(),
            forall|b: int|
                0 <= b < self.blocks.len() ==> #[trigger] self.with_block(x, y).outgoing(b)
                    == self.outgoing(b),
    {
        let after = self.with_block(x, y);
        assert forall|i: int| 0 <= i < after.blocks.len() implies after.block_valid(
            #[trigger] after.blocks[i],
        ) by {
            if i < self.blocks.len() {
                assert(self.block_valid(self.blocks[i]));
            }
        }
        assert forall|e: int| 0 <= e < after.edges.len() implies #[trigger] after.edge_valid(
            e,
        ) by {
            assert(self.edge_valid(e));
        }
    }

    /// Adding an edge keeps the model valid, puts the new target in front of
    /// the targets that `source` already had, and leaves the targets of all
    /// other blocks as they were. An edge from `source` to `target` adds
    /// nothing to the targets of `target`.
    pub proof fn lemma_with_edge(self, source: BlockIndex, target: BlockIndex)
        requires
            self.valid(),
            source < self.blocks.len(),
            target < self.blocks.len(),
            self.edges.len() <= usize::MAX,
        ensures
            self.with_edge(source, target).valid(),
            self.with_edge(source, target).outgoing(source as int) == seq![target] + self.outgoing(
                source as int,
            ),
            forall|b: int|
                0 <= b < self.blocks.len() && b != source ==> #[trigger] self.with_edge(
                    source,
                    target,
                ).outgoing(b) == self.outgoing(b),
    {
        let after = self.with_edge(source, target);
        let added = EdgeData { target, next_edge: self.blocks[source as int].first_edge };
        assert(self.block_valid(self.blocks[source as int]));
        assert forall|i: int| 0 <= i < after.blocks.len() implies after.block_valid(
            #[trigger] after.blocks[i],
        ) by {
            assert(self.block_valid(self.blocks[i]));
        }
        assert forall|e: int| 0 <= e < after.edges.len() implies #[trigger] after.edge_valid(
            e,
        ) by {
            if e < self.edges.len() {
                assert(self.edge_valid(e));
            }
        }
        Self::lemma_chain_push(self.edges, added, self.blocks[source as int].first_edge);
        assert forall|b: int|
            0 <= b < self.blocks.len() && b != source implies #[trigger] after.outgoing(b)
            == self.outgoing(b) by {
            assert(self.block_valid(self.blocks[b]));
            Self::lemma_chain_push(self.edges, added, self.blocks[b].first_edge);
        }
    }

    /// The nearest distance over the first `n` blocks is a lower bound of
    /// the distance to every block among them that lies in `cells`, and it
    /// is the distance to one of them; it is `None` exactly when none of
    /// them lies in `cells`.
    pub proof fn lemma_nearest_upto_is_minimum(
        self,
        cells: Set<ChunkIndex>,
        x: nat,
        y: nat,
        n: nat,
    )
        ensures
            self.nearest_upto(cells, x, y, n) is None ==> forall|i: int|
                0 <= i < n ==> !#[trigger] self.in_cells(i, cells),
            self.nearest_upto(cells, x, y, n) matches Some(d) ==> forall|i: int|
                0 <= i < n && self.in_cells(i, cells) ==> d <= #[trigger] self.block_dist(i, x, y),
            self.nearest_upto(cells, x, y, n) matches Some(d) ==> exists|i: int|
                0 <= i < n && self.in_cells(i, cells) && d == #[trigger] self.block_dist(i, x, y),
        decreases n,
    {
        if n > 0 {
            self.lemma_nearest_upto_is_minimum(cells, x, y, (n - 1) as nat);
            let earlier = self.nearest_upto(cells, x, y, (n - 1) as nat);
            if let Some(e) = earlier {
                let i = choose|i: int|
                    0 <= i < n - 1 && self.in_cells(i, cells) && e == #[trigger] self.block_dist(
                        i,
                        x,
                        y,
                    );
                assert(0 <= i < n && self.in_cells(i, cells) && e == self.block_dist(i, x, y));
            }
            if self.in_cells(n - 1, cells) {
                assert(self.block_dist(n - 1, x, y) == self.block_dist(n - 1, x, y));
            }
        }
    }

    /// The nearest distance is the only value that is a lower bound of the
    /// distance to every block in `cells` and is the distance to one of
    /// them.
    pub proof fn lemma_nearest_is_minimum(
        self,
        cells: Set<ChunkIndex>,
        x: nat,
        y: nat,
        found: Option<int>,
    )
        requires
            found is None ==> forall|i: int|
                0 <= i < self.blocks.len() ==> !#[trigger] self.in_cells(i, cells),
            found matches Some(d) ==> forall|i: int|
                0 <= i < self.blocks.len() && self.in_cells(i, cells) ==> d
                    <= #[trigger] self.block_dist(i, x, y),
            found matches Some(d) ==> exists|i: int|
                0 <= i < self.blocks.len() && self.in_cells(i, cells) && d
                    == #[trigger] self.block_dist(i, x, y),
        ensures
            found == self.nearest(cells, x, y),
    {
        self.lemma_nearest_upto_is_minimum(cells, x, y, self.blocks.len());
        match found {
            Some(d) => {
                let i = choose|i: int|
                    0 <= i < self.blocks.len() && self.in_cells(i, cells) && d
                        == #[trigger] self.block_dist(i, x, y);
                assert(self.in_cells(i, cells));
            },
            None => {
                if let Some(e) = self.nearest(cells, x, y) {
                    let i = choose|i: int|
                        0 <= i < self.blocks.len() && self.in_cells(i, cells) && e
                            == #[trigger] self.block_dist(i, x, y);
                    assert(self.in_cells(i, cells));
                }
            },
        }
    }

    /// The score is a lower bound of the boundary score and of the distance
    /// to every near block, and it is one of these values.
    pub proof fn lemma_score_is_minimum(self, x: nat, y: nat)
        ensures
            self.score(x, y) <= self.boundary_score(x, y),
            forall|i: int|
                0 <= i < self.blocks.len() && self.near(i, x, y) ==> self.score(x, y)
                    <= #[trigger] self.block_dist(i, x, y),
            self.score(x, y) == self.boundary_score(x, y) || exists|i: int|
                0 <= i < self.blocks.len() && self.near(i, x, y) && self.score(x, y)
                    == #[trigger] self.block_dist(i, x, y),
    {
        self.lemma_nearest_upto_is_minimum(self.around(x, y), x, y, self.blocks.len());
        if let Some(d) = self.nearest(self.around(x, y), x, y) {
            let i = choose|i: int|
                0 <= i < self.blocks.len() && self.in_cells(i, self.around(x, y)) && d
                    == #[trigger] self.block_dist(i, x, y);
            assert(self.near(i, x, y));
        }
    }

    /// With no block near, the score is the boundary score alone.
    pub proof fn lemma_score_without_near_blocks(self, x: nat, y: nat)
        requires
            forall|i: int| 0 <= i < self.blocks.len() ==> !self.near(i, x, y),
        ensures
            self.score(x, y) == self.boundary_score(x, y),
    {
        self.lemma_nearest_upto_is_minimum(self.around(x, y), x, y, self.blocks.len());
        if let Some(d) = self.nearest(self.around(x, y), x, y) {
            let i = choose|i: int|
                0 <= i < self.blocks.len() && self.in_cells(i, self.around(x, y)) && d
                    == #[trigger] self.block_dist(i, x, y);
            assert(self.near(i, x, y));
        }
    }

    /// Only one candidate is the first of those with the greatest score, so
    /// the same candidates on the same map always give the same choice.
    pub proof fn lemma_best_unique(self, candidates: Seq<(u16, u16)>, a: int, b: int)
        requires
            self.is_best(candidates, a),
            self.is_best(candidates, b),
        ensures
            a == b,
            self.best(candidates) == a,
    {
        if a < b {
            assert(self.score_of(candidates, a) < self.score_of(candidates, b));
            assert(self.score_of(candidates, b) <= self.score_of(candidates, a));
        }
        if b < a {
            assert(self.score_of(candidates, b) < self.score_of(candidates, a));
            assert(self.score_of(candidates, a) <= self.score_of(candidates, b));
        }
        let c = self.best(candidates);
        if c < a {
            assert(self.score_of(candidates, c) < self.score_of(candidates, a));
            assert(self.score_of(candidates, a) <= self.score_of(candidates, c));
        }
        if a < c {
            assert(self.score_of(candidates, a) < self.score_of(candidates, c));
            assert(self.score_of(candidates, c) <= self.score_of(candidates, a));
        }
    }
}

} // verus!
