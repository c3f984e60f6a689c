//! Sequence filters: select sequences by name prefix or by index range.
use vstd::prelude::*;

use crate::text::{parse_number, parsed_number, split_bounds, split_on, trim, trim_bounds};

verus! {

/// The character views of a list of names.
pub open spec fn views_of(v: Seq<String>) -> Seq<Seq<char>> {
    v.map_values(|n: String| n@)
}

/// `p` is a prefix of `s` (equal strings included).
pub open spec fn is_prefix_of(p: Seq<char>, s: Seq<char>) -> bool {
    p.len() <= s.len() && s.subrange(0, p.len() as int) == p
}

/// The trimmed, non-empty pieces of a comma-separated list, in order.
pub open spec fn name_list(pieces: Seq<Seq<char>>) -> Seq<Seq<char>>
    decreases pieces.len(),
{
    if pieces.len() == 0 {
        Seq::empty()
    } else {
        let prev = name_list(pieces.drop_last());
        let t = trim(pieces.last());
        if t.len() > 0 {
            prev.push(t)
        } else {
            prev
        }
    }
}

/// A predicate over (index, name) pairs: a name matches when one of
/// `names` is a prefix of it, an index when it lies in the inclusive
/// `range`. A filter with neither matches everything.
#[derive(Clone, Debug)]
pub struct SequenceFilter {
    pub names: Vec<String>,
    pub range: Option<(usize, usize)>,
}

/// Why a range text was refused.
#[derive(Debug, Clone, Copy, PartialEq, Eq, Structural)]
pub enum RangeError {
    /// The text does not have exactly one `-`.
    BadFormat,
    /// One side is not a decimal number that fits in a `usize`.
    BadNumber,
    /// The start is after the end.
    StartAfterEnd,
}

/// What parsing a range text gives.
pub open spec fn range_parse(s: Seq<char>) -> Result<(usize, usize), RangeError> {
    let parts = split_on(s, '-');
    if parts.len() != 2 {
        Err(RangeError::BadFormat)
    } else {
        match (parsed_number(trim(parts[0])), parsed_number(trim(parts[1]))) {
            (Some(a), Some(b)) => if a <= b {
                Ok((a, b))
            } else {
                Err(RangeError::StartAfterEnd)
            },
            _ => Err(RangeError::BadNumber),
        }
    }
}

impl SequenceFilter {
    pub open spec fn name_views(&self) -> Seq<Seq<char>> {
        views_of(self.names@)
    }

    pub open spec fn spec_is_empty(&self) -> bool {
        self.names@.len() == 0 && self.range is None
    }

    /// Whether the filter keeps the sequence at `index` called `name`.
    pub open spec fn accepts(&self, index: int, name: Seq<char>) -> bool {
        ||| self.spec_is_empty()
        ||| (self.range matches Some(r) && r.0 <= index <= r.1)
        ||| exists|k: int| 0 <= k < self.names@.len() && is_prefix_of(#[trigger] self.names@[k]@, name)
    }

    /// Indices below `n` that the filter keeps, in increasing order.
    pub open spec fn retained_upto(&self, names: Seq<Seq<char>>, n: int) -> Seq<usize>
        decreases n,
    {
        if n <= 0 {
            Seq::empty()
        } else {
            let prev = self.retained_upto(names, n - 1);
            if self.accepts(n - 1, names[n - 1]) {
                prev.push((n - 1) as usize)
            } else {
                prev
            }
        }
    }

    /// The indices of `names` that the filter keeps, in increasing order.
    pub open spec fn retained(&self, names: Seq<Seq<char>>) -> Seq<usize> {
        self.retained_upto(names, names.len() as int)
    }

    /// The filter that matches everything.
    pub fn new() -> (r: SequenceFilter)
        ensures
            r.spec_is_empty(),
    {
        SequenceFilter { names: Vec::new(), range: None }
    }

    /// Builds a name filter from comma-separated names or prefixes; each
    /// is trimmed and empty ones are dropped.
    pub fn from_names(names_str: &str) -> (r: SequenceFilter)
        ensures
            r.range is None,
            r.name_views() == name_list(split_on(names_str@, ',')),
    {
        let bounds = split_bounds(names_str, ',');
        let ghost pieces = split_on(names_str@, ',');
        let mut names: Vec<String> = Vec::new();
        let mut k: usize = 0;
        while k < bounds.len()
            invariant
                bounds@.len() == pieces.len(),
                pieces == split_on(names_str@, ','),
                forall|m: int|
                    #![trigger bounds@[m]]
                    0 <= m < bounds@.len() ==> {
                        &&& bounds@[m].0 <= bounds@[m].1 <= names_str@.len()
                        &&& names_str@.subrange(bounds@[m].0 as int, bounds@[m].1 as int) == pieces[m]
                    },
                0 <= k <= bounds@.len(),
                views_of(names@) == name_list(pieces.subrange(0, k as int)),
            decreases bounds@.len() - k,
        {
            let (a, b) = bounds[k];
            let (i, j) = trim_bounds(names_str, a, b);
            let ghost before = names@;
            assert(pieces.subrange(0, k + 1).drop_last() =~= pieces.subrange(0, k as int));
            if i < j {
                let piece = names_str.substring_char(i, j);
                names.push(String::from_str(piece));
                assert(views_of(names@) =~= views_of(before).push(piece@));
            }
            k = k + 1;
        }
        assert(pieces.subrange(0, k as int) =~= pieces);
        SequenceFilter { names, range: None }
    }

    /// Builds an index-range filter from text such as `"2-5"` (inclusive).
    pub fn from_range(range_str: &str) -> (r: Result<SequenceFilter, RangeError>)
        ensures
            match range_parse(range_str@) {
                Ok(p) => r matches Ok(f) && f.names@.len() == 0 && f.range == Some(p),
                Err(e) => r == Err::<SequenceFilter, RangeError>(e),
            },
    {
        let bounds = split_bounds(range_str, '-');
        if bounds.len() != 2 {
            return Err(RangeError::BadFormat);
        }
        let (a0, b0) = bounds[0];
        let (a1, b1) = bounds[1];
        let (i0, j0) = trim_bounds(range_str, a0, b0);
        let (i1, j1) = trim_bounds(range_str, a1, b1);
        let start = parse_number(range_str, i0, j0);
        let end = parse_number(range_str, i1, j1);
        match (start, end) {
            (Some(s), Some(e)) => {
                if s > e {
                    Err(RangeError::StartAfterEnd)
                } else {
                    Ok(SequenceFilter { names: Vec::new(), range: Some((s, e)) })
                }
            },
            _ => Err(RangeError::BadNumber),
        }
    }

    /// Whether the filter has neither names nor a range.
    pub fn is_empty(&self) -> (r: bool)
        ensures
            r == self.spec_is_empty(),
    {
        self.names.len() == 0 && self.range.is_none()
    }

    /// Whether the sequence at `index` called `name` matches.
    pub fn matches(&self, index: usize, name: &str) -> (r: bool)
        ensures
            r == self.accepts(index as int, name@),
    {
        if self.is_empty() {
            return true;
        }
        if let Some((start, end)) = self.range {
            if index >= start && index <= end {
                return true;
            }
        }
        let mut k: usize = 0;
        while k < self.names.len()
            invariant
                0 <= k <= self.names@.len(),
                forall|m: int| 0 <= m < k ==> !is_prefix_of(#[trigger] self.names@[m]@, name@),
            decreases self.names@.len() - k,
        {
            if starts_with(name, self.names[k].as_str()) {
                return true;
            }
            k = k + 1;
        }
        false
    }

    /// The indices of `sequences` that match, in increasing order.
    pub fn matching_indices(&self, sequences: &Vec<String>) -> (r: Vec<usize>)
        ensures
            r@ == self.retained(views_of(sequences@)),
    {
        let ghost names = views_of(sequences@);
        let mut r: Vec<usize> = Vec::new();
        let mut i: usize = 0;
        while i < sequences.len()
            invariant
                0 <= i <= sequences@.len(),
                names == views_of(sequences@),
                r@ == self.retained_upto(names, i as int),
            decreases sequences@.len() - i,
        {
            let keep = self.matches(i, sequences[i].as_str());
            assert(names[i as int] == sequences@[i as int]@);
            if keep {
                r.push(i);
            }
            i = i + 1;
        }
        r
    }
}

/// Whether `prefix` is a prefix of `name`.
fn starts_with(name: &str, prefix: &str) -> (r: bool)
    ensures
        r == is_prefix_of(prefix@, name@),
{
    let pl = prefix.unicode_len();
    let nl = name.unicode_len();
    if pl > nl {
        return false;
    }
    let mut i: usize = 0;
    while i < pl
        invariant
            pl == prefix@.len(),
            nl == name@.len(),
            pl <= nl,
            0 <= i <= pl,
            forall|m: int| 0 <= m < i ==> name@[m] == prefix@[m],
        decreases pl - i,
    {
        if name.get_char(i) != prefix.get_char(i) {
            assert(name@.subrange(0, pl as int)[i as int] != prefix@[i as int]);
            return false;
        }
        i = i + 1;
    }
    assert(name@.subrange(0, pl as int) =~= prefix@);
    true
}

} // verus!
