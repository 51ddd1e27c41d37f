//! Perceptual color index: palette entries keyed by representative color,
//! queried for the texture whose color is perceptually closest.
//!
//! The index is built once by repeated `add` calls and then queried
//! read-only. Queries do an exact linear scan — texture libraries are
//! small (tens to low hundreds of entries), so the scan is negligible
//! next to the per-pixel work, and it returns the exact closest entry,
//! never an approximation.

use vstd::prelude::*;

use crate::color::{delta_e_sq, spec_delta_e_sq, spec_srgb_to_lab, srgb_to_lab, Lab, Rgba};
use crate::Error;

verus! {

/// One palette entry: a representative color and the identifier of the
/// texture it stands for. The identifier is opaque: the index only
/// stores and returns it.
pub struct Entry {
    pub color: Lab,
    pub id: String,
}

/// Every entry's color is well formed.
pub open spec fn entries_wf(s: Seq<Entry>) -> bool {
    forall|i: int| 0 <= i < s.len() ==> (#[trigger] s[i]).color.wf()
}

/// Index of the entry nearest to `q` under the squared perceptual
/// distance; on ties the first-inserted entry wins.
pub open spec fn nearest_entry(s: Seq<Entry>, q: Lab) -> int
    decreases s.len(),
{
    if s.len() <= 1 {
        0
    } else {
        let rest = nearest_entry(s.drop_last(), q);
        if spec_delta_e_sq(s.last().color, q) < spec_delta_e_sq(s[rest].color, q) {
            s.len() - 1
        } else {
            rest
        }
    }
}

pub proof fn lemma_nearest_entry_in_range(s: Seq<Entry>, q: Lab)
    requires
        s.len() > 0,
    ensures
        0 <= nearest_entry(s, q) < s.len(),
    decreases s.len(),
{
    if s.len() > 1 {
        lemma_nearest_entry_in_range(s.drop_last(), q);
    }
}

/// The returned entry minimizes the perceptual distance to the query over
/// all entries of the index.
pub proof fn lemma_nearest_entry_is_min(s: Seq<Entry>, q: Lab, i: int)
    requires
        0 <= i < s.len(),
    ensures
        spec_delta_e_sq(s[nearest_entry(s, q)].color, q) <= spec_delta_e_sq(s[i].color, q),
    decreases s.len(),
{
    lemma_nearest_entry_in_range(s, q);
    if s.len() > 1 {
        lemma_nearest_entry_in_range(s.drop_last(), q);
        if i < s.len() - 1 {
            lemma_nearest_entry_is_min(s.drop_last(), q, i);
        } else {
            lemma_nearest_entry_is_min(s.drop_last(), q, nearest_entry(s.drop_last(), q));
        }
    }
}

/// Ties are deterministic for a fixed build order: every entry inserted
/// before the returned one is strictly farther from the query.
pub proof fn lemma_nearest_entry_is_first(s: Seq<Entry>, q: Lab, i: int)
    requires
        0 <= i < nearest_entry(s, q),
    ensures
        spec_delta_e_sq(s[nearest_entry(s, q)].color, q) < spec_delta_e_sq(s[i].color, q),
    decreases s.len(),
{
    lemma_nearest_entry_in_range(s, q);
    if s.len() > 1 {
        let rest = nearest_entry(s.drop_last(), q);
        lemma_nearest_entry_in_range(s.drop_last(), q);
        if nearest_entry(s, q) == s.len() - 1 && rest != s.len() - 1 {
            if i < rest {
                lemma_nearest_entry_is_first(s.drop_last(), q, i);
            } else if i > rest {
                lemma_nearest_entry_is_min(s.drop_last(), q, i);
            }
        } else {
            lemma_nearest_entry_is_first(s.drop_last(), q, i);
        }
    }
}

/// The color index: immutable after its build phase, queried once per
/// target pixel.
pub struct Colors {
    pub entries: Vec<Entry>,
}

impl Colors {
    pub open spec fn wf(self) -> bool {
        entries_wf(self.entries@)
    }

    /// An empty index.
    pub fn new() -> (c: Colors)
        ensures
            c.entries@.len() == 0,
            c.wf(),
    {
        Colors { entries: Vec::new() }
    }

    /// Append one palette entry; the index only grows while it is built.
    pub fn add(&mut self, color: Lab, id: String)
        requires
            old(self).wf(),
            color.wf(),
        ensures
            final(self).entries@ == old(self).entries@.push(Entry { color, id }),
            final(self).wf(),
    {
        self.entries.push(Entry { color, id });
    }

    /// The identifier of the entry perceptually closest to `q`; fails
    /// with `EmptyIndex` exactly when the index holds no entries.
    pub fn closest_lab(&self, q: &Lab) -> (r: Result<String, Error>)
        requires
            self.wf(),
            q.wf(),
        ensures
            self.entries@.len() == 0 ==> r == Err::<String, Error>(Error::EmptyIndex),
            self.entries@.len() > 0 ==> r == Ok::<String, Error>(
                self.entries@[nearest_entry(self.entries@, *q)].id,
            ),
            forall|i: int|
                0 <= i < self.entries@.len() ==> spec_delta_e_sq(
                    self.entries@[nearest_entry(self.entries@, *q)].color,
                    *q,
                ) <= spec_delta_e_sq((#[trigger] self.entries@[i]).color, *q),
    {
        if self.entries.len() == 0 {
            return Err(Error::EmptyIndex);
        }
        proof {
            assert forall|i: int| 0 <= i < self.entries@.len() implies spec_delta_e_sq(
                self.entries@[nearest_entry(self.entries@, *q)].color,
                *q,
            ) <= spec_delta_e_sq((#[trigger] self.entries@[i]).color, *q) by {
                lemma_nearest_entry_is_min(self.entries@, *q, i);
            }
        }
        let mut best: usize = 0;
        let mut bd: u64 = delta_e_sq(&self.entries[0].color, q);
        let mut i: usize = 1;
        while i < self.entries.len()
            invariant
                1 <= i <= self.entries@.len(),
                self.entries@.len() >= 1,
                entries_wf(self.entries@),
                q.wf(),
                best < i,
                best as int == nearest_entry(self.entries@.take(i as int), *q),
                bd == spec_delta_e_sq(self.entries@[best as int].color, *q),
            decreases self.entries@.len() - i,
        {
            let d: u64 = delta_e_sq(&self.entries[i].color, q);
            proof {
                assert(self.entries@.take(i as int + 1).drop_last() =~= self.entries@.take(
                    i as int,
                ));
                lemma_nearest_entry_in_range(self.entries@.take(i as int), *q);
            }
            if d < bd {
                best = i;
                bd = d;
            }
            i = i + 1;
        }
        proof {
            assert(self.entries@.take(self.entries@.len() as int) =~= self.entries@);
        }
        Ok(self.entries[best].id.clone())
    }

    /// The identifier of the entry perceptually closest to a raw pixel:
    /// the pixel is converted into perceptual space, then the index is
    /// queried there — never in raw channel space.
    pub fn closest(&self, color: &Rgba) -> (r: Result<String, Error>)
        requires
            self.wf(),
            color.wf(),
        ensures
            self.entries@.len() == 0 ==> r == Err::<String, Error>(Error::EmptyIndex),
            self.entries@.len() > 0 ==> r == Ok::<String, Error>(
                self.entries@[nearest_entry(self.entries@, spec_srgb_to_lab(*color))].id,
            ),
            forall|i: int|
                0 <= i < self.entries@.len() ==> spec_delta_e_sq(
                    self.entries@[nearest_entry(self.entries@, spec_srgb_to_lab(*color))].color,
                    spec_srgb_to_lab(*color),
                ) <= spec_delta_e_sq(
                    (#[trigger] self.entries@[i]).color,
                    spec_srgb_to_lab(*color),
                ),
    {
        let q: Lab = srgb_to_lab(color);
        self.closest_lab(&q)
    }
}

} // verus!
