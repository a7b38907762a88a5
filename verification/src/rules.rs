//! Directions, per-tile rules, and the learned rule table.

use vstd::prelude::*;

verus! {

/// A sequence of tile-type ids in strictly increasing order.
///
/// All candidate and neighbor sets in this crate are kept in this
/// form: it makes them duplicate-free and gives every set exactly one
/// representation, so iteration order is deterministic.
pub open spec fn sorted_strict(s: Seq<usize>) -> bool {
    forall|i: int, j: int| #![trigger s[i], s[j]] 0 <= i < j < s.len() ==> s[i] < s[j]
}

/// The four neighbor directions on the grid.
#[derive(Clone, Copy, PartialEq, Eq, Structural, Debug)]
pub enum Dir {
    West,
    North,
    East,
    South,
}

impl Dir {
    /// The direction from a cell's neighbor back to the cell itself.
    pub open spec fn spec_opposite(self) -> Dir {
        match self {
            Dir::West => Dir::East,
            Dir::North => Dir::South,
            Dir::East => Dir::West,
            Dir::South => Dir::North,
        }
    }

    /// Executable counterpart of [`Dir::spec_opposite`].
    #[verifier::when_used_as_spec(spec_opposite)]
    pub fn opposite(self) -> (r: Dir)
        ensures
            r == self.spec_opposite(),
    {
        match self {
            Dir::West => Dir::East,
            Dir::North => Dir::South,
            Dir::East => Dir::West,
            Dir::South => Dir::North,
        }
    }
}

/// Learned information for one tile type: how often it occurs in the
/// sample, and which tile types were observed next to it in each of
/// the four directions.
#[derive(Debug)]
pub struct Rule {
    /// Number of occurrences of the tile type in the sample grid.
    pub freq: usize,
    /// Tile types observed directly above an occurrence.
    pub north: Vec<usize>,
    /// Tile types observed directly below an occurrence.
    pub south: Vec<usize>,
    /// Tile types observed directly to the right of an occurrence.
    pub east: Vec<usize>,
    /// Tile types observed directly to the left of an occurrence.
    pub west: Vec<usize>,
}

impl Rule {
    /// The allowed-neighbor list for one direction.
    pub open spec fn allowed(self, d: Dir) -> Seq<usize> {
        match d {
            Dir::West => self.west@,
            Dir::North => self.north@,
            Dir::East => self.east@,
            Dir::South => self.south@,
        }
    }

    /// A rule is well formed when its tile type was seen at least once
    /// and each direction list is strictly sorted.
    pub open spec fn wf(self) -> bool {
        &&& self.freq >= 1
        &&& sorted_strict(self.north@)
        &&& sorted_strict(self.south@)
        &&& sorted_strict(self.east@)
        &&& sorted_strict(self.west@)
    }

    /// Executable access to the allowed-neighbor list of a direction.
    pub fn dir_vec(&self, d: Dir) -> (r: &Vec<usize>)
        ensures
            r@ == self.allowed(d),
    {
        match d {
            Dir::West => &self.west,
            Dir::North => &self.north,
            Dir::East => &self.east,
            Dir::South => &self.south,
        }
    }
}

/// First entry of `es` whose key is `t`, if any.
pub open spec fn lookup(es: Seq<(usize, Rule)>, t: usize) -> Option<Rule>
    decreases es.len(),
{
    if es.len() == 0 {
        None
    } else if es[0].0 == t {
        Some(es[0].1)
    } else {
        lookup(es.skip(1), t)
    }
}

/// Frequency recorded for tile type `t`; zero for an unknown type.
pub open spec fn freq_val(es: Seq<(usize, Rule)>, t: usize) -> int {
    match lookup(es, t) {
        Some(r) => r.freq as int,
        None => 0,
    }
}

/// Sum of the recorded frequencies of all entries.
pub open spec fn sum_freq(es: Seq<(usize, Rule)>) -> int
    decreases es.len(),
{
    if es.len() == 0 {
        0
    } else {
        es[0].1.freq + sum_freq(es.skip(1))
    }
}

/// The keys of the entries, in entry order.
pub open spec fn keys_of(es: Seq<(usize, Rule)>) -> Seq<usize> {
    es.map_values(|e: (usize, Rule)| e.0)
}

pub proof fn lemma_sum_freq_nonneg(es: Seq<(usize, Rule)>)
    ensures
        sum_freq(es) >= 0,
    decreases es.len(),
{
    if es.len() > 0 {
        lemma_sum_freq_nonneg(es.skip(1));
    }
}

/// A found lookup names an actual entry of the table.
pub proof fn lemma_lookup_some_index(es: Seq<(usize, Rule)>, t: usize)
    requires
        lookup(es, t) is Some,
    ensures
        exists|i: int|
            0 <= i < es.len() && (#[trigger] es[i]).0 == t && es[i].1 == lookup(es, t)->Some_0,
    decreases es.len(),
{
    if es.len() > 0 && es[0].0 != t {
        lemma_lookup_some_index(es.skip(1), t);
        let j = choose|j: int|
            0 <= j < es.skip(1).len() && (#[trigger] es.skip(1)[j]).0 == t && es.skip(1)[j].1
                == lookup(es.skip(1), t)->Some_0;
        assert(es[j + 1] == es.skip(1)[j]);
    }
}

/// Every key is found by lookup.
pub proof fn lemma_lookup_at_key(es: Seq<(usize, Rule)>, i: int)
    requires
        sorted_strict(keys_of(es)),
        0 <= i < es.len(),
    ensures
        lookup(es, es[i].0) == Some(es[i].1),
    decreases es.len(),
{
    if i > 0 {
        assert(keys_of(es)[0] == es[0].0);
        assert(keys_of(es)[i] == es[i].0);
        assert(es[0].0 != es[i].0);
        assert(keys_of(es.skip(1)) =~= keys_of(es).skip(1));
        lemma_lookup_at_key(es.skip(1), i - 1);
        assert(es.skip(1)[i - 1] == es[i]);
    }
}

/// The learned rule table: one entry per tile type observed in the
/// sample, keyed by tile type in strictly increasing order.
#[derive(Debug)]
pub struct RuleSet {
    /// `(tile type, rule)` pairs, keys strictly increasing.
    pub entries: Vec<(usize, Rule)>,
}

impl RuleSet {
    /// The tile types that have a rule, in increasing order.
    pub open spec fn keys(self) -> Seq<usize> {
        keys_of(self.entries@)
    }

    /// Whether tile type `t` has a rule.
    pub open spec fn contains_tile(self, t: usize) -> bool {
        lookup(self.entries@, t) is Some
    }

    /// Learned frequency of `t`; zero for an unknown type.
    pub open spec fn freq_of(self, t: usize) -> int {
        freq_val(self.entries@, t)
    }

    /// Allowed neighbors of `t` in direction `d`; empty for an
    /// unknown type, so an unknown tile constrains its neighbors to
    /// nothing.
    pub open spec fn allowed_of(self, t: usize, d: Dir) -> Seq<usize> {
        match lookup(self.entries@, t) {
            Some(r) => r.allowed(d),
            None => Seq::empty(),
        }
    }

    /// Well-formedness: keys strictly sorted, every rule well formed,
    /// and the total frequency (the sample's cell count) fits the
    /// machine word, which bounds every partial weight sum.
    pub open spec fn wf(self) -> bool {
        &&& sorted_strict(self.keys())
        &&& forall|i: int|
            0 <= i < self.entries@.len() ==> (#[trigger] self.entries@[i]).1.wf()
        &&& sum_freq(self.entries@) <= usize::MAX
    }

    /// Index of the entry for `t`, if there is one.
    pub fn find(&self, t: usize) -> (r: Option<usize>)
        ensures
            match r {
                Some(i) => i < self.entries@.len() && self.entries@[i as int].0 == t && lookup(
                    self.entries@,
                    t,
                ) == Some(self.entries@[i as int].1),
                None => lookup(self.entries@, t) is None,
            },
    {
        let n = self.entries.len();
        let mut i: usize = 0;
        proof {
            assert(self.entries@.skip(0) =~= self.entries@);
        }
        while i < n
            invariant
                n == self.entries@.len(),
                i <= n,
                lookup(self.entries@, t) == lookup(self.entries@.skip(i as int), t),
            decreases n - i,
        {
            proof {
                assert(self.entries@.skip(i as int)[0] == self.entries@[i as int]);
                assert(self.entries@.skip(i as int).skip(1) =~= self.entries@.skip(i as int + 1));
            }
            if self.entries[i].0 == t {
                return Some(i);
            }
            i += 1;
        }
        None
    }

    /// Learned frequency of `t`, zero when `t` has no rule.
    pub fn freq(&self, t: usize) -> (f: usize)
        ensures
            f as int == self.freq_of(t),
    {
        match self.find(t) {
            Some(i) => self.entries[i].1.freq,
            None => 0,
        }
    }

    /// Whether `v` is an allowed neighbor of `t` in direction `d`.
    pub fn allowed_contains(&self, t: usize, d: Dir, v: usize) -> (r: bool)
        ensures
            r == self.allowed_of(t, d).contains(v),
    {
        match self.find(t) {
            Some(i) => contains_val(self.entries[i].1.dir_vec(d), v),
            None => false,
        }
    }

    /// All known tile types, in increasing order.
    pub fn tile_types(&self) -> (r: Vec<usize>)
        ensures
            r@ == self.keys(),
    {
        let n = self.entries.len();
        let mut r: Vec<usize> = Vec::new();
        let mut i: usize = 0;
        while i < n
            invariant
                n == self.entries@.len(),
                i <= n,
                r@.len() == i,
                forall|j: int| 0 <= j < i ==> r@[j] == (#[trigger] self.entries@[j]).0,
            decreases n - i,
        {
            r.push(self.entries[i].0);
            i += 1;
        }
        proof {
            assert(r@ =~= self.keys());
        }
        r
    }
}

/// Whether `x` occurs in `v`.
pub fn contains_val(v: &Vec<usize>, x: usize) -> (r: bool)
    ensures
        r == v@.contains(x),
{
    let n = v.len();
    let mut i: usize = 0;
    while i < n
        invariant
            n == v@.len(),
            i <= n,
            forall|j: int| 0 <= j < i ==> v@[j] != x,
        decreases n - i,
    {
        if v[i] == x {
            return true;
        }
        i += 1;
    }
    false
}

/// A fresh copy of a list of tile-type ids.
pub fn copy_vals(v: &Vec<usize>) -> (r: Vec<usize>)
    ensures
        r@ == v@,
{
    let n = v.len();
    let mut r: Vec<usize> = Vec::new();
    let mut i: usize = 0;
    while i < n
        invariant
            n == v@.len(),
            i <= n,
            r@ == v@.take(i as int),
        decreases n - i,
    {
        r.push(v[i]);
        proof {
            assert(r@ =~= v@.take(i as int + 1));
        }
        i += 1;
    }
    proof {
        assert(v@.take(n as int) =~= v@);
    }
    r
}

} // verus!
