use vstd::prelude::*;
use crate::types::Move;

verus! {

/// What a stored score says about the true score.
#[derive(Clone, Copy, PartialEq, Eq, Structural)]
pub enum TTFlag {
    Exact,
    LowerBound,
    UpperBound,
}

/// A stored search result.
#[derive(Clone, Copy)]
pub struct TTEntry {
    pub key: u64,
    pub score: i32,
    pub depth: u8,
    pub flag: TTFlag,
    pub best_move: Option<Move>,
}

/// A hash table of search results, one slot per `key % size`.
pub struct TranspositionTable {
    entries: Vec<Option<TTEntry>>,
    size: usize,
}

/// The slot of `key` in a table with `size` slots.
pub open spec fn slot(key: u64, size: int) -> int {
    (key as usize) as int % size
}

/// The score an entry answers for a probe of `key` at `depth` with window (`alpha`, `beta`):
/// the key must match, the entry must be at least as deep, and the score must be exact, a
/// lower bound at or above `beta`, or an upper bound at or below `alpha`.
pub open spec fn probe(entry: Option<TTEntry>, key: u64, depth: u8, alpha: i32, beta: i32) -> Option<i32> {
    match entry {
        Some(e) => if e.key == key && e.depth >= depth && match e.flag {
            TTFlag::Exact => true,
            TTFlag::LowerBound => e.score >= beta,
            TTFlag::UpperBound => e.score <= alpha,
        } {
            Some(e.score)
        } else {
            None
        },
        None => None,
    }
}

impl View for TranspositionTable {
    type V = Seq<Option<TTEntry>>;

    /// The slots.
    closed spec fn view(&self) -> Seq<Option<TTEntry>> {
        self.entries@
    }
}

impl TranspositionTable {
    /// The number of slots.
    pub closed spec fn slots(&self) -> int {
        self.size as int
    }

    /// The slot count matches the storage and is nonzero, and every stored score is within
    /// -48000..=48000.
    pub closed spec fn wf(&self) -> bool {
        &&& self.entries@.len() == self.size
        &&& self.size > 0
        &&& forall|i: int|
            0 <= i < self.entries@.len() ==> (#[trigger] self.entries@[i] matches Some(e) ==> -48_000
                <= e.score <= 48_000)
    }

    /// A table of `size` megabytes: as many empty slots as entries fit in that space.
    pub fn new(size: usize) -> (tt: Self)
        requires
            size * 1024 * 1024 <= usize::MAX,
        ensures
            vstd::layout::size_of::<Option<TTEntry>>() > 0 ==> tt.slots() == (size * 1024 * 1024)
                / (vstd::layout::size_of::<Option<TTEntry>>() as int),
            tt.slots() > 0 ==> tt.wf(),
            tt@.len() == tt.slots(),
            forall|i: int| 0 <= i < tt@.len() ==> #[trigger] tt@[i] is None,
    {
        let entry_size = core::mem::size_of::<Option<TTEntry>>();
        // A slot always occupies at least one byte.
        let num_entries = if entry_size == 0 {
            0
        } else {
            (size * 1024 * 1024) / entry_size
        };
        let mut entries: Vec<Option<TTEntry>> = Vec::new();
        let mut i: usize = 0;
        while i < num_entries
            invariant
                i <= num_entries,
                entries@.len() == i,
                forall|j: int| 0 <= j < i ==> #[trigger] entries@[j] is None,
            decreases num_entries - i,
        {
            entries.push(None);
            i += 1;
        }
        Self { entries, size: num_entries }
    }

    /// Empties every slot.
    pub fn clear(&mut self)
        ensures
            final(self).slots() == old(self).slots(),
            old(self).wf() ==> final(self).wf(),
            final(self)@.len() == old(self)@.len(),
            forall|i: int| 0 <= i < final(self)@.len() ==> #[trigger] final(self)@[i] is None,
    {
        let mut i: usize = 0;
        let n = self.entries.len();
        while i < n
            invariant
                i <= n,
                n == self.entries@.len(),
                self.size == old(self).size,
                forall|j: int| 0 <= j < i ==> #[trigger] self.entries@[j] is None,
            decreases n - i,
        {
            self.entries.set(i, None);
            i += 1;
        }
    }

    /// Looks `key` up: the stored score when the entry in its slot answers the probe
    /// (see `probe`).
    pub fn read(&self, key: u64, depth: u8, alpha: i32, beta: i32) -> (r: Option<i32>)
        requires
            self.wf(),
        ensures
            r == probe(self@[slot(key, self.slots())], key, depth, alpha, beta),
            r matches Some(score) ==> -48_000 <= score <= 48_000,
    {
        let index = (key as usize) % self.size;
        match self.entries[index] {
            Some(e) => {
                let usable = e.key == key && e.depth >= depth && match e.flag {
                    TTFlag::Exact => true,
                    TTFlag::LowerBound => e.score >= beta,
                    TTFlag::UpperBound => e.score <= alpha,
                };
                if usable {
                    Some(e.score)
                } else {
                    None
                }
            },
            None => None,
        }
    }

    /// Stores a result in the slot of `key`, replacing what was there; scores outside
    /// -48000..=48000 (mate scores) are not stored.
    pub fn write(&mut self, key: u64, depth: u8, score: i32, flag: TTFlag, best_move: Option<Move>)
        requires
            old(self).wf(),
        ensures
            final(self).wf(),
            final(self).slots() == old(self).slots(),
            final(self)@ == if -48_000 <= score <= 48_000 {
                old(self)@.update(
                    slot(key, old(self).slots()),
                    Some(TTEntry { key, depth, score, flag, best_move }),
                )
            } else {
                old(self)@
            },
    {
        if !(-48_000 <= score && score <= 48_000) {
            return;
        }
        let index = (key as usize) % self.size;
        self.entries.set(index, Some(TTEntry { key, depth, score, flag, best_move }));
        assert(forall|i: int|
            0 <= i < self.entries@.len() ==> (#[trigger] self.entries@[i] matches Some(e) ==> -48_000
                <= e.score <= 48_000));
    }
}

/// Every key has a slot in a well-formed table.
pub proof fn lemma_slot_in_table(tt: TranspositionTable, key: u64)
    requires
        tt.wf(),
    ensures
        0 <= slot(key, tt.slots()) < tt@.len(),
        tt.slots() == tt@.len(),
{
}

/// A read after a write of the same key, at no greater depth, answers with the written
/// score when it is within the storable range and its flag fits the window.
pub proof fn lemma_read_after_write(
    before: Seq<Option<TTEntry>>,
    size: int,
    key: u64,
    depth: u8,
    score: i32,
    flag: TTFlag,
    best_move: Option<Move>,
    read_depth: u8,
    alpha: i32,
    beta: i32,
)
    requires
        size > 0,
        before.len() == size,
        -48_000 <= score <= 48_000,
        read_depth <= depth,
        match flag {
            TTFlag::Exact => true,
            TTFlag::LowerBound => score >= beta,
            TTFlag::UpperBound => score <= alpha,
        },
    ensures
        probe(
            before.update(slot(key, size), Some(TTEntry { key, depth, score, flag, best_move }))[slot(
                key,
                size,
            )],
            key,
            read_depth,
            alpha,
            beta,
        ) == Some(score),
{
}

} // verus!
