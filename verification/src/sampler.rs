//! Best-candidate sampling: each round draws a number of random candidates
//! and keeps the one that lies farthest from the boundary of the area and
//! from the blocks already placed near it.

use crate::grid::lemma_chunk_of_in_grid;
use crate::random::draw_below;
use crate::setting::BlockIndex;
use crate::setting::MapError;
use crate::setting::Streetmap;
use rand::rngs::StdRng;
use vstd::prelude::*;

verus! {

impl Streetmap {
    /// Score of a candidate at `(x, y)`: the smallest of its boundary score
    /// and its squared distances to the blocks in its own chunk and in the
    /// chunks around it. A candidate outside the area is refused.
    pub fn candidate_score(&self, x: u16, y: u16) -> (r: Result<u64, MapError>)
        requires
            self.wf(),
        ensures
            self@.inside(x as nat, y as nat) ==> r == Ok::<u64, MapError>(
                self@.score(x as nat, y as nat) as u64,
            ) && 0 <= self@.score(x as nat, y as nat) <= u64::MAX,
            !self@.inside(x as nat, y as nat) ==> r == Err::<u64, MapError>(MapError::OutOfArea),
    {
        let chunk = match self.find_chunk(x, y) {
            Ok(chunk) => chunk,
            Err(e) => {
                return Err(e);
            },
        };
        let adj = self.adjacent_chunks(chunk).unwrap();
        let edge_dist = self.sq_dist_from_edge(x, y).unwrap();
        proof {
            self.lemma_wf_valid();
            assert forall|b: int| 0 <= b < adj@.len() implies self@.has_chunk(
                #[trigger] adj@[b] as int,
            ) by {
                assert(adj@.contains(adj@[b]));
            }
            assert(adj@.to_set() =~= self@.around(x as nat, y as nat));
        }
        match self.sq_dist_from_nearest(&adj, x, y).unwrap() {
            Some(block_dist) => if block_dist < edge_dist {
                Ok(block_dist)
            } else {
                Ok(edge_dist)
            },
            None => Ok(edge_dist),
        }
    }

    /// Picks the candidate with the strictly greatest score; of several
    /// with the same score, the first. An empty list, or a candidate outside
    /// the area, is refused.
    pub fn best_candidate(&self, candidates: &Vec<(u16, u16)>) -> (r: Result<usize, MapError>)
        requires
            self.wf(),
        ensures
            candidates@.len() == 0 ==> r == Err::<usize, MapError>(MapError::NoCandidates),
            candidates@.len() > 0 && !self@.all_inside(candidates@) ==> r == Err::<usize, MapError>(
                MapError::OutOfArea,
            ),
            candidates@.len() > 0 && self@.all_inside(candidates@) ==> r == Ok::<usize, MapError>(
                self@.best(candidates@) as usize,
            ) && self@.is_best(candidates@, self@.best(candidates@)),
    {
        if candidates.len() == 0 {
            return Err(MapError::NoCandidates);
        }
        let mut best_index: usize = 0;
        let mut furthest_dist: u64 = 0;
        for i in 0..candidates.len()
            invariant
                self.wf(),
                candidates@.len() > 0,
                forall|k: int|
                    0 <= k < i ==> self@.inside(
                        (#[trigger] candidates@[k]).0 as nat,
                        candidates@[k].1 as nat,
                    ),
                i == 0 ==> best_index == 0 && furthest_dist == 0,
                i > 0 ==> best_index < i && furthest_dist == self@.score_of(
                    candidates@,
                    best_index as int,
                ),
                forall|k: int|
                    0 <= k < best_index ==> #[trigger] self@.score_of(candidates@, k)
                        < furthest_dist,
                forall|k: int|
                    best_index <= k < i ==> #[trigger] self@.score_of(candidates@, k)
                        <= furthest_dist,
        {
            let candidate = candidates[i];
            let dist = match self.candidate_score(candidate.0, candidate.1) {
                Ok(dist) => dist,
                Err(e) => {
                    return Err(e);
                },
            };
            proof {
                assert(dist == self@.score_of(candidates@, i as int));
            }
            if dist > furthest_dist {
                furthest_dist = dist;
                best_index = i;
            }
        }
        proof {
            self@.lemma_best_unique(candidates@, best_index as int, best_index as int);
        }
        Ok(best_index)
    }

    /// Keeps the best of `candidates` as a new block and returns its index.
    /// Where `best_candidate` refuses the list, the map stays as it was.
    pub fn add_best_among(&mut self, candidates: &Vec<(u16, u16)>) -> (r: Result<
        BlockIndex,
        MapError,
    >)
        requires
            old(self).wf(),
        ensures
            final(self).wf(),
            candidates@.len() == 0 ==> r == Err::<BlockIndex, MapError>(MapError::NoCandidates)
                && final(self)@ == old(self)@,
            candidates@.len() > 0 && !old(self)@.all_inside(candidates@) ==> r == Err::<
                BlockIndex,
                MapError,
            >(MapError::OutOfArea) && final(self)@ == old(self)@,
            candidates@.len() > 0 && old(self)@.all_inside(candidates@) ==> r == Ok::<
                BlockIndex,
                MapError,
            >(old(self)@.blocks.len() as usize) && old(self)@.is_best(
                candidates@,
                old(self)@.best(candidates@),
            ) && final(self)@ == old(self)@.with_block(
                candidates@[old(self)@.best(candidates@)].0,
                candidates@[old(self)@.best(candidates@)].1,
            ),
    {
        proof {
            self.lemma_wf_valid();
            assert(candidates.len() == candidates@.len());
        }
        let best_index = match self.best_candidate(candidates) {
            Ok(best_index) => best_index,
            Err(e) => {
                return Err(e);
            },
        };
        let chosen = candidates[best_index];
        self.add_block(chosen.0, chosen.1)
    }

    /// Draws `num` candidates, each uniformly from the points of the area. An
    /// area without points gives no candidates.
    pub fn draw_candidates(&self, rng: &mut StdRng, num: usize) -> (candidates: Vec<(u16, u16)>)
        ensures
            self@.all_inside(candidates@),
            self@.width > 0 && self@.height > 0 ==> candidates@.len() == num,
            self@.width == 0 || self@.height == 0 ==> candidates@.len() == 0,
    {
        let width = self.width();
        let height = self.height();
        let mut candidates: Vec<(u16, u16)> = Vec::new();
        if width == 0 || height == 0 {
            return candidates;
        }
        for i in 0..num
            invariant
                width == self@.width,
                height == self@.height,
                width > 0,
                height > 0,
                candidates@.len() == i,
                self@.all_inside(candidates@),
        {
            let x = draw_below(rng, width);
            let y = draw_below(rng, height);
            candidates.push((x, y));
        }
        candidates
    }

    /// One round of sampling: draws `num` candidates inside the area, keeps
    /// the best of them as a new block and returns its index. With no
    /// candidate to draw, or an area without points, nothing is placed.
    pub fn add_best_candidate(&mut self, rng: &mut StdRng, num: usize) -> (r: Option<BlockIndex>)
        requires
            old(self).wf(),
        ensures
            final(self).wf(),
            num == 0 || old(self)@.width == 0 || old(self)@.height == 0 ==> r is None
                && final(self)@ == old(self)@,
            num > 0 && old(self)@.width > 0 && old(self)@.height > 0 ==> r == Some(
                old(self)@.blocks.len() as usize,
            ) && final(self)@.extends(old(self)@, 1),
    {
        let candidates = self.draw_candidates(rng, num);
        let ghost before = self@;
        proof {
            self.lemma_wf_valid();
        }
        let placed = self.add_best_among(&candidates);
        proof {
            if candidates@.len() > 0 {
                let chosen = candidates@[before.best(candidates@)];
                lemma_chunk_of_in_grid(
                    before.width,
                    before.height,
                    chosen.0 as nat,
                    chosen.1 as nat,
                );
                before.lemma_with_block(chosen.0, chosen.1);
            }
        }
        placed.ok()
    }

    /// Runs `block_count` rounds of sampling; round `k`, counted from zero,
    /// draws `k * 10 + 10` candidates. Each round places one block, unless
    /// the area is without points: then the map stays as it was.
    pub fn populate_blue_noise(&mut self, rng: &mut StdRng, block_count: usize)
        requires
            old(self).wf(),
            block_count * 10 <= usize::MAX,
        ensures
            final(self).wf(),
            old(self)@.width > 0 && old(self)@.height > 0 ==> final(self)@.extends(
                old(self)@,
                block_count as nat,
            ),
            old(self)@.width == 0 || old(self)@.height == 0 ==> final(self)@ == old(self)@,
    {
        for count in 0..block_count
            invariant
                self.wf(),
                block_count * 10 <= usize::MAX,
                old(self)@.width > 0 && old(self)@.height > 0 ==> self@.extends(
                    old(self)@,
                    count as nat,
                ),
                old(self)@.width == 0 || old(self)@.height == 0 ==> self@ == old(self)@,
        {
            self.add_best_candidate(rng, count * 10 + 10);
        }
    }
}

} // verus!
