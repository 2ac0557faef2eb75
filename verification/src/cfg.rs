//! Control flow graphs: basic blocks, their edges, and exception ranges.

use vstd::prelude::*;

verus! {

/// A basic block. Offsets are code units of the source machine.
#[derive(Debug)]
pub struct Block {
    /// Position of the block in `Cfg::blocks`.
    pub id: usize,
    pub start: u32,
    pub end: u32,
    /// Number of machine instructions; 0 for a synthetic empty block.
    pub ins_len: u32,
    pub succ: Vec<usize>,
    pub pred: Vec<usize>,
    pub handlers: Vec<usize>,
}

/// An exception-table row: `[start, end)` is protected by the code at `handler`.
#[derive(Debug)]
pub struct ExcRange {
    pub start: u32,
    pub end: u32,
    pub handler: u32,
    /// Internal name of the caught class; `None` catches everything.
    pub catch_type: Option<String>,
}

/// Exceptional flow from a protected block to a handler block.
#[derive(Debug, Clone, Copy)]
pub struct ExcEdge {
    pub from: usize,
    pub to: usize,
}

#[derive(Debug)]
pub struct Cfg {
    pub blocks: Vec<Block>,
    pub entry: usize,
    pub exc_ranges: Vec<ExcRange>,
    pub exc_edges: Vec<ExcEdge>,
}

impl Cfg {
    /// Number of blocks.
    pub open spec fn n(self) -> nat {
        self.blocks@.len()
    }

    pub open spec fn succ(self, b: usize) -> Seq<usize> {
        self.blocks@[b as int].succ@
    }

    pub open spec fn pred(self, b: usize) -> Seq<usize> {
        self.blocks@[b as int].pred@
    }

    pub open spec fn start(self, b: usize) -> u32 {
        self.blocks@[b as int].start
    }

    pub open spec fn end(self, b: usize) -> u32 {
        self.blocks@[b as int].end
    }

    pub open spec fn len(self, b: usize) -> u32 {
        self.blocks@[b as int].ins_len
    }

    /// The successor lists of all blocks.
    pub open spec fn adj(self) -> Seq<Seq<usize>> {
        Seq::new(self.n(), |i: int| self.blocks@[i].succ@)
    }

    /// Ids equal positions, every edge stays inside the graph, and the
    /// predecessor lists are the reverse of the successor lists.
    pub open spec fn wf(self) -> bool {
        &&& self.n() > 0 ==> self.entry < self.n()
        &&& forall|b: int| 0 <= b < self.n() ==> (#[trigger] self.blocks@[b]).id == b
        &&& forall|b: int, k: int|
            0 <= b < self.n() && 0 <= k < self.blocks@[b].succ@.len() ==> (
            #[trigger] self.blocks@[b].succ@[k]) < self.n()
        &&& forall|b: int, k: int|
            0 <= b < self.n() && 0 <= k < self.blocks@[b].pred@.len() ==> (
            #[trigger] self.blocks@[b].pred@[k]) < self.n()
        &&& forall|a: usize, b: usize|
            a < self.n() && b < self.n() ==> (#[trigger] self.blocks@[a as int].succ@.contains(b)
                <==> #[trigger] self.blocks@[b as int].pred@.contains(a))
        &&& forall|i: int|
            0 <= i < self.exc_edges@.len() ==> (#[trigger] self.exc_edges@[i]).from < self.n()
                && self.exc_edges@[i].to < self.n()
    }

    /// `b` is the first block that starts at `pc`.
    pub open spec fn starts_at(self, pc: u32, b: usize) -> bool {
        &&& b < self.n()
        &&& self.start(b) == pc
        &&& forall|j: usize| j < b ==> #[trigger] self.start(j) != pc
    }

    /// The first block that starts at `pc`, if any does.
    pub open spec fn at(self, pc: u32) -> Option<usize> {
        if exists|b: usize| self.starts_at(pc, b) {
            Some(choose|b: usize| self.starts_at(pc, b))
        } else {
            None
        }
    }

    pub proof fn lemma_at(self, pc: u32, b: usize)
        requires
            self.starts_at(pc, b),
        ensures
            self.at(pc) == Some(b),
    {
        let c = choose|c: usize| self.starts_at(pc, c);
        if c < b {
            assert(self.start(c) != pc);
        }
        if b < c {
            assert(self.start(b) != pc);
        }
    }

    /// The block that starts at code offset `pc`.
    pub fn block_at(&self, pc: u32) -> (r: Option<usize>)
        ensures
            r == self.at(pc),
            r matches Some(b) ==> b < self.n() && self.start(b) == pc,
    {
        let mut i: usize = 0;
        while i < self.blocks.len()
            invariant
                i <= self.n(),
                forall|j: usize| j < i ==> #[trigger] self.start(j) != pc,
            decreases self.n() - i,
        {
            if self.blocks[i].start == pc {
                proof {
                    self.lemma_at(pc, i);
                }
                return Some(i);
            }
            i += 1;
        }
        None
    }
}

} // verus!
