//! Sets of rows, one bit per row.
use vstd::prelude::*;

verus! {

/// Bit `b` of a word, the least significant one first.
pub open spec fn word_bit(w: u64, b: u64) -> bool {
    (w >> b) & 1 == 1
}

proof fn lemma_set_bit(w: u64, b: u64, c: u64)
    requires
        b < 64,
        c < 64,
    ensures
        word_bit(w | (1u64 << b), c) == (b == c || word_bit(w, c)),
{
    assert(((w | (1u64 << b)) >> c) & 1 == 1 <==> (b == c || (w >> c) & 1 == 1)) by (bit_vector)
        requires
            b < 64,
            c < 64,
    ;
}

proof fn lemma_no_bit(c: u64)
    requires
        c < 64,
    ensures
        !word_bit(0, c),
{
    assert((0u64 >> c) & 1 != 1) by (bit_vector);
}

proof fn lemma_some_bit(w: u64)
    requires
        w != 0,
    ensures
        exists|b: u64| b < 64 && #[trigger] word_bit(w, b),
{
    if forall|b: u64| b < 64 ==> !#[trigger] word_bit(w, b) {
        lemma_bits_clear(w, 64);
        assert(w == 0) by (bit_vector)
            requires
                w & 0xffff_ffff_ffff_ffff == 0,
        ;
    }
}

/// The bits below `n`, as a mask.
spec fn low_mask(n: u64) -> u64 {
    if n >= 64 {
        0xffff_ffff_ffff_ffff
    } else {
        ((1u64 << n) - 1) as u64
    }
}

proof fn lemma_bits_clear(w: u64, n: u64)
    requires
        n <= 64,
        forall|b: u64| b < 64 ==> !#[trigger] word_bit(w, b),
    ensures
        w & low_mask(n) == 0,
    decreases n,
{
    if n == 0 {
        assert(w & (((1u64 << 0u64) - 1) as u64) == 0) by (bit_vector);
    } else {
        let m = (n - 1) as u64;
        lemma_bits_clear(w, m);
        assert(!word_bit(w, m));
        if n == 64 {
            assert(w & 0xffff_ffff_ffff_ffff == 0) by (bit_vector)
                requires
                    w & (((1u64 << 63u64) - 1) as u64) == 0,
                    (w >> 63u64) & 1 != 1,
            ;
        } else {
            assert(w & (((1u64 << n) - 1) as u64) == 0) by (bit_vector)
                requires
                    m < 63,
                    n == m + 1,
                    w & (((1u64 << m) - 1) as u64) == 0,
                    (w >> m) & 1 != 1,
            ;
        }
    }
}

/// Whether the row `r` is in the set that the words stand for.
pub open spec fn marked(words: Seq<u64>, r: int) -> bool {
    0 <= r < 64 * words.len() && word_bit(words[r / 64], (r % 64) as u64)
}

/// A set of rows.
#[derive(Debug)]
pub struct RowSet {
    words: Vec<u64>,
}

impl View for RowSet {
    type V = Set<int>;

    closed spec fn view(&self) -> Set<int> {
        Set::new(|r: int| marked(self.words@, r))
    }
}

/// The rows `kept[0]`, `kept[1]`, ... that are in a set, by their new numbers.
pub open spec fn renumbered(s: Set<int>, kept: Seq<int>) -> Set<int> {
    Set::new(|j: int| 0 <= j < kept.len() && s.contains(kept[j]))
}

impl RowSet {
    /// The number of rows that the set has room for.
    pub closed spec fn room(&self) -> nat {
        64 * self.words@.len()
    }

    /// The empty set, without room for rows.
    pub fn new() -> (r: RowSet)
        ensures
            r@ == Set::<int>::empty(),
            r.room() == 0,
    {
        let r = RowSet { words: Vec::new() };
        assert(r@ =~= Set::<int>::empty());
        r
    }

    /// Make room for `rows` rows.
    pub fn reserve(&mut self, rows: usize)
        ensures
            final(self)@ == old(self)@,
            final(self).room() >= rows,
            final(self).room() >= old(self).room(),
    {
        let want: usize = rows / 64 + if rows % 64 > 0 {
            1
        } else {
            0
        };
        let ghost start = self.words@;
        while self.words.len() < want
            invariant
                self.words@.len() >= start.len(),
                start == old(self).words@,
                forall|i: int| 0 <= i < start.len() ==> self.words@[i] == #[trigger] start[i],
                forall|i: int| start.len() <= i < self.words@.len() ==> #[trigger] self.words@[i] == 0,
            decreases want - self.words@.len(),
        {
            self.words.push(0);
        }
        assert(self@ =~= old(self)@) by {
            assert forall|r: int| marked(self.words@, r) == marked(start, r) by {
                if 0 <= r < 64 * self.words@.len() {
                    if r / 64 < start.len() {
                        assert(self.words@[r / 64] == start[r / 64]);
                    } else {
                        lemma_no_bit((r % 64) as u64);
                    }
                }
            }
        }
    }

    /// Whether a row is in the set.
    pub fn contains(&self, row: u64) -> (r: bool)
        ensures
            r == self@.contains(row as int),
    {
        let i: u64 = row / 64;
        if i >= self.words.len() as u64 {
            return false;
        }
        let b: u64 = row % 64;
        let w: u64 = self.words[i as usize];
        (w >> b) & 1 == 1
    }

    /// Put a row into the set.
    pub fn insert(&mut self, row: usize)
        requires
            row < old(self).room(),
        ensures
            final(self)@ == old(self)@.insert(row as int),
            final(self).room() == old(self).room(),
    {
        let i: usize = row / 64;
        let b: u64 = (row % 64) as u64;
        let ghost start = self.words@;
        let w: u64 = self.words[i];
        self.words.set(i, w | (1u64 << b));
        assert(self@ =~= old(self)@.insert(row as int)) by {
            let now = self.words@;
            assert(now == start.update(i as int, w | (1u64 << b)));
            assert forall|r: int| #[trigger]
                self@.contains(r) == old(self)@.insert(row as int).contains(r) by {
                assert(marked(now, r) == (r == row || marked(start, r))) by {
                    if 0 <= r < 64 * start.len() {
                        if r / 64 == i {
                            lemma_set_bit(w, b, (r % 64) as u64);
                        } else {
                            assert(now[r / 64] == start[r / 64]);
                        }
                    }
                }
            }
        }
    }

    /// Take all rows out of the set.
    pub fn clear(&mut self)
        ensures
            final(self)@ == Set::<int>::empty(),
            final(self).room() == old(self).room(),
    {
        let n: usize = self.words.len();
        let mut i: usize = 0;
        while i < n
            invariant
                i <= n,
                n == self.words@.len(),
                n == old(self).words@.len(),
                forall|k: int| 0 <= k < i ==> #[trigger] self.words@[k] == 0,
            decreases n - i,
        {
            self.words.set(i, 0);
            i = i + 1;
        }
        assert(self@ =~= Set::<int>::empty()) by {
            assert forall|r: int| !marked(self.words@, r) by {
                if 0 <= r < 64 * self.words@.len() {
                    lemma_no_bit((r % 64) as u64);
                }
            }
        }
    }

    /// Whether any row is in the set.
    pub fn any(&self) -> (r: bool)
        ensures
            r == exists|row: int| self@.contains(row),
    {
        let mut i: usize = 0;
        while i < self.words.len()
            invariant
                i <= self.words@.len(),
                forall|k: int| 0 <= k < i ==> #[trigger] self.words@[k] == 0,
            decreases self.words@.len() - i,
        {
            let w: u64 = self.words[i];
            if w != 0 {
                proof {
                    lemma_some_bit(w);
                    let b = choose|b: u64| b < 64 && #[trigger] word_bit(w, b);
                    let row = 64 * i + b;
                    assert(row / 64 == i && row % 64 == b);
                    assert(marked(self.words@, row));
                    assert(self@.contains(row));
                }
                return true;
            }
            i = i + 1;
        }
        assert forall|r: int| !self@.contains(r) by {
            if 0 <= r < 64 * self.words@.len() {
                lemma_no_bit((r % 64) as u64);
            }
        }
        false
    }
}

} // verus!
