//! The layouts already made for one page, keyed by the layout width's bit
//! pattern. Laying out is the expensive half of every command, and a page is
//! normally asked for both outputs at two different widths (the PDF's sheet
//! minus its margins, the screenshot's viewport), so two widths are kept and
//! the oldest gives way to a new one.

use vstd::prelude::*;

verus! {

/// How many laid-out widths a page keeps: one slot would make the PDF and
/// the screenshot thrash each other.
pub const CACHED_WIDTHS: usize = 2;

/// The value kept for `key`: the first entry under it, if any.
pub open spec fn lookup<T>(entries: Seq<(u32, T)>, key: u32) -> Option<T>
    decreases entries.len(),
{
    if entries.len() == 0 {
        None
    } else if entries[0].0 == key {
        Some(entries[0].1)
    } else {
        lookup(entries.drop_first(), key)
    }
}

/// The entries after storing `value` under `key`: appended last, the oldest
/// entry dropped first when the cache is full.
pub open spec fn stored<T>(entries: Seq<(u32, T)>, key: u32, value: T) -> Seq<(u32, T)> {
    if entries.len() >= CACHED_WIDTHS {
        entries.drop_first().push((key, value))
    } else {
        entries.push((key, value))
    }
}

/// Layouts keyed by width, oldest first.
pub struct LayoutCache<T> {
    entries: Vec<(u32, T)>,
}

impl<T> View for LayoutCache<T> {
    type V = Seq<(u32, T)>;

    closed spec fn view(&self) -> Seq<(u32, T)> {
        self.entries@
    }
}

proof fn lemma_lookup_from<T>(entries: Seq<(u32, T)>, key: u32, i: int)
    requires
        0 <= i <= entries.len(),
        forall|j: int| 0 <= j < i ==> entries[j].0 != key,
    ensures
        lookup(entries, key) == lookup(entries.subrange(i, entries.len() as int), key),
    decreases i,
{
    if i > 0 {
        lemma_lookup_from(entries.drop_first(), key, i - 1);
        assert(entries.drop_first().subrange(i - 1, entries.len() - 1) =~= entries.subrange(
            i,
            entries.len() as int,
        ));
    } else {
        assert(entries.subrange(0, entries.len() as int) =~= entries);
    }
}

impl<T> LayoutCache<T> {
    /// A well-formed cache holds at most `CACHED_WIDTHS` entries.
    pub closed spec fn wf(&self) -> bool {
        self.entries@.len() <= CACHED_WIDTHS
    }

    /// An empty cache.
    pub fn new() -> (c: Self)
        ensures
            c.wf(),
            c@ == Seq::<(u32, T)>::empty(),
    {
        LayoutCache { entries: Vec::new() }
    }

    /// How many widths are laid out.
    pub fn len(&self) -> (n: usize)
        ensures
            n == self@.len(),
    {
        self.entries.len()
    }

    /// The layout kept for `key`, if any.
    pub fn find(&self, key: u32) -> (r: Option<&T>)
        ensures
            match r {
                Some(t) => lookup(self@, key) == Some(*t),
                None => lookup(self@, key) is None,
            },
    {
        let mut i: usize = 0;
        while i < self.entries.len()
            invariant
                i <= self.entries@.len(),
                forall|j: int| 0 <= j < i ==> self.entries@[j].0 != key,
            decreases self.entries@.len() - i,
        {
            if self.entries[i].0 == key {
                proof {
                    lemma_lookup_from(self.entries@, key, i as int);
                }
                return Some(&self.entries[i].1);
            }
            i = i + 1;
        }
        proof {
            lemma_lookup_from(self.entries@, key, i as int);
        }
        None
    }

    /// Keeps `value` under `key`, dropping the oldest layout when the cache
    /// is full.
    pub fn store(&mut self, key: u32, value: T)
        requires
            old(self).wf(),
        ensures
            final(self).wf(),
            final(self)@ == stored(old(self)@, key, value),
    {
        if self.entries.len() == CACHED_WIDTHS {
            self.entries.remove(0);
        }
        self.entries.push((key, value));
    }

    /// Forgets every layout: the HTML they were made from changed.
    pub fn clear(&mut self)
        ensures
            final(self).wf(),
            final(self)@ == Seq::<(u32, T)>::empty(),
    {
        self.entries.clear();
    }
}

/// A width just laid out is found again, as long as it was not there
/// before; and a width that was found stays found, unless it was the oldest
/// of a full cache.
pub proof fn law_a_stored_width_is_found<T>(entries: Seq<(u32, T)>, key: u32, value: T, other: u32)
    requires
        entries.len() <= CACHED_WIDTHS,
    ensures
        lookup(entries, key) is None ==> lookup(stored(entries, key, value), key) == Some(value),
        stored(entries, key, value).len() <= CACHED_WIDTHS,
        other != key && lookup(entries, other) is Some && !(entries.len() >= CACHED_WIDTHS
            && entries[0].0 == other) ==> lookup(stored(entries, key, value), other) == lookup(
            entries,
            other,
        ),
{
    let s = stored(entries, key, value);
    reveal_with_fuel(lookup, 4);
    if entries.len() >= CACHED_WIDTHS {
        assert(s =~= seq![entries[1], (key, value)]);
        assert(entries.drop_first() =~= seq![entries[1]]);
        assert(seq![entries[1], (key, value)].drop_first() =~= seq![(key, value)]);
    } else if entries.len() == 1 {
        assert(s =~= seq![entries[0], (key, value)]);
        assert(entries.drop_first() =~= Seq::<(u32, T)>::empty());
        assert(seq![entries[0], (key, value)].drop_first() =~= seq![(key, value)]);
    } else {
        assert(s =~= seq![(key, value)]);
    }
    assert(seq![(key, value)].drop_first() =~= Seq::<(u32, T)>::empty());
}

} // verus!
