//! The registry of loaded levels and the selection of the active one.
//!
//! The registry owns every level brought in from persistent storage, keeps
//! the index of the currently active level, and cycles through levels with
//! wraparound. When nothing loads, a built-in default level stands in so
//! that the rest of the system never starts without terrain.

use vstd::prelude::*;
use vstd::string::{StrSliceExecFns, StringExecFns};

use crate::level::{default_gradient, Level};

verus! {

/// Lexicographic byte order: `a` comes no later than `b`, comparing byte by
/// byte with a shorter prefix first — the order `String` comparison gives.
pub open spec fn lex_le(a: Seq<u8>, b: Seq<u8>) -> bool
    decreases a.len(),
{
    if a.len() == 0 {
        true
    } else if b.len() == 0 {
        false
    } else if a[0] < b[0] {
        true
    } else if a[0] > b[0] {
        false
    } else {
        lex_le(a.drop_first(), b.drop_first())
    }
}

/// The byte order is total: of any two sequences, one comes no later than
/// the other.
pub proof fn lemma_lex_le_total(a: Seq<u8>, b: Seq<u8>)
    ensures
        lex_le(a, b) || lex_le(b, a),
    decreases a.len(),
{
    if a.len() > 0 && b.len() > 0 && a[0] == b[0] {
        lemma_lex_le_total(a.drop_first(), b.drop_first());
    }
}

/// The UTF-8 bytes of a level's name, the key levels are ordered by.
pub open spec fn name_key(l: Level) -> Seq<u8> {
    vstd::utf8::encode_utf8(l.name@)
}

/// Whether each level comes no later than its neighbor, by name.
pub open spec fn sorted_by_name(s: Seq<Level>) -> bool {
    forall|i: int|
        0 <= i && i + 1 < s.len() ==> lex_le(name_key(#[trigger] s[i]), name_key(s[i + 1]))
}

/// Whether `a`'s name comes no later than `b`'s in byte order.
fn name_le(a: &Level, b: &Level) -> (r: bool)
    ensures
        r == lex_le(name_key(*a), name_key(*b)),
{
    let abytes = a.name.as_str().as_bytes_vec();
    let bbytes = b.name.as_str().as_bytes_vec();
    proof {
        assert(abytes@.skip(0) =~= abytes@);
        assert(bbytes@.skip(0) =~= bbytes@);
    }
    let mut i: usize = 0;
    loop
        invariant
            i <= abytes@.len(),
            i <= bbytes@.len(),
            abytes@ == name_key(*a),
            bbytes@ == name_key(*b),
            forall|m: int| 0 <= m < i ==> abytes@[m] == bbytes@[m],
            lex_le(abytes@, bbytes@) == lex_le(
                abytes@.skip(i as int),
                bbytes@.skip(i as int),
            ),
        decreases abytes@.len() - i,
    {
        if i >= abytes.len() {
            proof {
                assert(abytes@.skip(i as int).len() == 0);
            }
            return true;
        }
        if i >= bbytes.len() {
            proof {
                assert(bbytes@.skip(i as int).len() == 0);
                assert(abytes@.skip(i as int).len() > 0);
            }
            return false;
        }
        let av = abytes[i];
        let bv = bbytes[i];
        proof {
            assert(abytes@.skip(i as int)[0] == av);
            assert(bbytes@.skip(i as int)[0] == bv);
            assert(abytes@.skip(i as int).drop_first() =~= abytes@.skip(i + 1));
            assert(bbytes@.skip(i as int).drop_first() =~= bbytes@.skip(i + 1));
        }
        if av < bv {
            return true;
        }
        if av > bv {
            return false;
        }
        i += 1;
    }
}

/// Insert a level into a name-sorted list, keeping it sorted: the verified
/// step behind loading levels in a stable, name-ordered sequence.
pub fn insert_level_sorted(levels: &mut Vec<Level>, level: Level)
    requires
        sorted_by_name(old(levels)@),
    ensures
        sorted_by_name(final(levels)@),
        exists|k: int|
            0 <= k <= old(levels)@.len() && final(levels)@ == old(levels)@.insert(
                k,
                level,
            ),
{
    let mut idx: usize = 0;
    while idx < levels.len() && !name_le(&level, &levels[idx])
        invariant
            idx <= levels@.len(),
            sorted_by_name(levels@),
            levels@ == old(levels)@,
            forall|m: int| 0 <= m < idx ==> !lex_le(name_key(level), name_key(levels@[m])),
        decreases levels@.len() - idx,
    {
        idx += 1;
    }
    let ghost pre = levels@;
    let ghost k = idx as int;
    levels.insert(idx, level);
    proof {
        assert(levels@ == pre.insert(k, level));
        pre.insert_ensures(k, level);
        assert forall|i: int| 0 <= i && i + 1 < levels@.len() implies lex_le(
            name_key(#[trigger] levels@[i]),
            name_key(levels@[i + 1]),
        ) by {
            if i + 1 < k {
                assert(pre.insert(k, level)[i] == pre[i]);
                assert(pre.insert(k, level)[i + 1] == pre[i + 1]);
            } else if i + 1 == k {
                assert(pre.insert(k, level)[i] == pre[i]);
                assert(pre.insert(k, level)[k] == level);
                assert(!lex_le(name_key(level), name_key(pre[i])));
                lemma_lex_le_total(name_key(level), name_key(pre[i]));
            } else if i == k {
                assert(k < pre.len());
                assert(pre.insert(k, level)[k] == level);
                assert(pre.insert(k, level)[i + 1] == pre[i]);
            } else {
                assert(pre.insert(k, level)[(i - 1) + 1] == pre[i - 1]);
                assert(pre.insert(k, level)[i + 1] == pre[i]);
            }
        }
    }
}

/// The built-in fallback level: 10 x 10, gradient-filled, named
/// "Default Level".
pub open spec fn is_default_level(l: Level) -> bool {
    &&& l.name@ == "Default Level"@
    &&& l.width == 10
    &&& l.height == 10
    &&& l.wf()
    &&& forall|q: int, r: int|
        0 <= q < 10 && 0 <= r < 10 ==> #[trigger] l.height_at(q, r) == default_gradient(
            10,
            10,
            q,
            r,
        )
}

/// All available levels and the index of the currently active one.
#[derive(Debug)]
pub struct LevelsResource {
    /// All available levels loaded from persistent storage.
    pub levels: Vec<Level>,
    /// Index of the currently active level.
    pub current_level_index: usize,
}

impl LevelsResource {
    /// The active index addresses a loaded level.
    pub open spec fn wf(&self) -> bool {
        self.current_level_index < self.levels@.len()
    }

    /// Create a registry holding only the built-in default level.
    pub fn with_default() -> (r: LevelsResource)
        ensures
            r.wf(),
            r.levels@.len() == 1,
            r.current_level_index == 0,
            is_default_level(r.levels@[0]),
    {
        let name = String::from_str("Default Level");
        let default_level = Level::new(name, 10, 10);
        let mut levels: Vec<Level> = Vec::new();
        levels.push(default_level);
        LevelsResource { levels, current_level_index: 0 }
    }

    /// Create a registry from the provided levels, selecting the first.
    pub fn new(levels: Vec<Level>) -> (r: LevelsResource)
        ensures
            r.levels == levels,
            r.current_level_index == 0,
    {
        LevelsResource { levels, current_level_index: 0 }
    }

    /// The currently active level.
    pub fn current_level(&self) -> (l: &Level)
        requires
            self.wf(),
        ensures
            *l == self.levels@[self.current_level_index as int],
    {
        &self.levels[self.current_level_index]
    }

    /// The total number of available levels.
    pub fn level_count(&self) -> (n: usize)
        ensures
            n == self.levels@.len(),
    {
        self.levels.len()
    }

    /// Advance to the next level, wrapping to the first after the last.
    /// With at most one level there is nothing to cycle through and the
    /// selection stays put.
    pub fn cycle_next(&mut self)
        requires
            old(self).wf(),
        ensures
            final(self).wf(),
            final(self).levels == old(self).levels,
            final(self).current_level_index == if old(self).levels@.len() <= 1 {
                old(self).current_level_index as int
            } else {
                (old(self).current_level_index + 1) % (old(self).levels@.len() as int)
            },
    {
        let count = self.levels.len();
        if count <= 1 {
            return ;
        }
        self.current_level_index = (self.current_level_index + 1) % count;
    }

    /// Step back to the previous level, wrapping to the last from the
    /// first. With at most one level the selection stays put.
    pub fn cycle_previous(&mut self)
        requires
            old(self).wf(),
        ensures
            final(self).wf(),
            final(self).levels == old(self).levels,
            final(self).current_level_index == if old(self).levels@.len() <= 1 {
                old(self).current_level_index as int
            } else if old(self).current_level_index == 0 {
                old(self).levels@.len() - 1
            } else {
                old(self).current_level_index - 1
            },
    {
        let count = self.levels.len();
        if count <= 1 {
            return ;
        }
        if self.current_level_index == 0 {
            self.current_level_index = count - 1;
        } else {
            self.current_level_index = self.current_level_index - 1;
        }
    }
}

/// Wrap loaded levels into a registry, substituting the built-in default
/// level when none loaded successfully; the first level is selected either
/// way.
pub fn levels_or_default(levels: Vec<Level>) -> (r: LevelsResource)
    ensures
        r.current_level_index == 0,
        levels@.len() == 0 ==> r.levels@.len() == 1 && is_default_level(r.levels@[0]),
        levels@.len() > 0 ==> r.levels == levels,
        levels@.len() > 0 || r.wf(),
{
    if levels.len() == 0 {
        LevelsResource::with_default()
    } else {
        LevelsResource::new(levels)
    }
}

} // verus!
